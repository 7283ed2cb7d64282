//! The dynamic wire value: a closed tagged union with one variant per
//! payload kind the wire format can carry.
//!
//! Every executable [`Value`] has a mathematical model [`Val`], reached with
//! `@`, over which all contracts are stated. Floating-point payloads are held
//! as their IEEE-754 bit patterns (`u64`), so the library itself never touches
//! a float; callers convert with `f64::to_bits` / `f64::from_bits`.

use vstd::prelude::*;

verus! {

/// A wire integer: non-negative values live in the unsigned branch, negative
/// values in the signed branch (see [`IntVal::wf`]).
#[derive(Clone, Copy, Debug, PartialEq, Eq)]
pub enum IntVal {
    Pos(u64),
    Neg(i64),
}

impl IntVal {
    /// The mathematical integer this value stands for.
    pub open spec fn as_int(&self) -> int {
        match *self {
            IntVal::Pos(u) => u as int,
            IntVal::Neg(n) => n as int,
        }
    }

    /// The signed branch holds only negative values, so each integer has one
    /// representation.
    pub open spec fn wf(&self) -> bool {
        match *self {
            IntVal::Pos(_) => true,
            IntVal::Neg(n) => n < 0,
        }
    }

    /// Build the canonical representation of a signed integer.
    pub fn from_i64(n: i64) -> (r: IntVal)
        ensures
            r.wf(),
            r.as_int() == n as int,
    {
        if n >= 0 {
            IntVal::Pos(n as u64)
        } else {
            IntVal::Neg(n)
        }
    }

    /// The value as an `i64`, when it fits; mirrors what callers of the
    /// transport do with integer response payloads.
    pub fn as_i64(&self) -> (r: Option<i64>)
        ensures
            match r {
                Some(n) => n as int == self.as_int(),
                None => self.as_int() > i64::MAX as int,
            },
    {
        match *self {
            IntVal::Pos(u) => {
                if u <= i64::MAX as u64 {
                    Some(u as i64)
                } else {
                    None
                }
            },
            IntVal::Neg(n) => Some(n),
        }
    }
}

/// The executable dynamic value.
#[derive(Debug, PartialEq)]
pub enum Value {
    /// The absent value.
    Nil,
    /// A boolean.
    Bool(bool),
    /// A signed or unsigned integer.
    Int(IntVal),
    /// A 64-bit float, held as its IEEE-754 bit pattern.
    F64(u64),
    /// A UTF-8 string.
    Str(String),
    /// Raw bytes.
    Bin(Vec<u8>),
    /// An ordered sequence of values.
    Arr(Vec<Value>),
    /// An ordered sequence of key/value pairs; keys need not be unique at the
    /// type level, though callers must treat them as unique.
    Dict(Vec<(Value, Value)>),
    /// An extension payload: an application type tag and raw bytes.
    Ext(i8, Vec<u8>),
}

/// The mathematical model of a [`Value`].
#[verifier::ext_equal]
pub enum Val {
    Nil,
    Bool(bool),
    Int(int),
    F64(u64),
    Str(Seq<char>),
    Bin(Seq<u8>),
    Arr(Seq<Val>),
    Dict(Seq<(Val, Val)>),
    Ext(int, Seq<u8>),
}

impl View for Value {
    type V = Val;

    open spec fn view(&self) -> Val
        decreases self,
    {
        match self {
            Value::Nil => Val::Nil,
            Value::Bool(b) => Val::Bool(*b),
            Value::Int(i) => Val::Int(i.as_int()),
            Value::F64(bits) => Val::F64(*bits),
            Value::Str(s) => Val::Str(s@),
            Value::Bin(b) => Val::Bin(b@),
            Value::Arr(elems) => Val::Arr(elems_view(elems@)),
            Value::Dict(pairs) => Val::Dict(pairs_view(pairs@)),
            Value::Ext(tag, data) => Val::Ext(*tag as int, data@),
        }
    }
}

/// The models of a sequence of values, element by element.
pub open spec fn elems_view(s: Seq<Value>) -> Seq<Val>
    decreases s,
{
    if s.len() == 0 {
        Seq::empty()
    } else {
        elems_view(s.drop_last()).push(s.last()@)
    }
}

/// The models of a sequence of key/value pairs, pair by pair.
pub open spec fn pairs_view(s: Seq<(Value, Value)>) -> Seq<(Val, Val)>
    decreases s,
{
    if s.len() == 0 {
        Seq::empty()
    } else {
        pairs_view(s.drop_last()).push((s.last().0@, s.last().1@))
    }
}

/// How [`elems_view`] acts on each element.
pub broadcast proof fn lemma_elems_view(s: Seq<Value>)
    ensures
        (#[trigger] elems_view(s)).len() == s.len(),
        forall|i: int| 0 <= i < s.len() ==> elems_view(s)[i] == s[i]@,
    decreases s.len(),
{
    if s.len() > 0 {
        lemma_elems_view(s.drop_last());
        assert(elems_view(s) == elems_view(s.drop_last()).push(s.last()@));
        assert(elems_view(s).len() == s.len());
        assert forall|i: int| 0 <= i < s.len() implies elems_view(s)[i] == s[i]@ by {
            if i < s.len() - 1 {
                assert(s.drop_last()[i] == s[i]);
            } else {
                assert(s[i] == s.last());
            }
        }
    }
}

/// Appending one value appends its model.
pub proof fn lemma_elems_view_push(s: Seq<Value>, v: Value)
    ensures
        elems_view(s.push(v)) == elems_view(s).push(v@),
{
    assert(s.push(v).drop_last() =~= s);
    assert(s.push(v).last() == v);
}

/// Appending one pair appends its model.
pub proof fn lemma_pairs_view_push(s: Seq<(Value, Value)>, kv: (Value, Value))
    ensures
        pairs_view(s.push(kv)) == pairs_view(s).push((kv.0@, kv.1@)),
{
    assert(s.push(kv).drop_last() =~= s);
    assert(s.push(kv).last() == kv);
}

/// How [`pairs_view`] acts on each pair.
pub broadcast proof fn lemma_pairs_view(s: Seq<(Value, Value)>)
    ensures
        (#[trigger] pairs_view(s)).len() == s.len(),
        forall|i: int|
            0 <= i < s.len() ==> pairs_view(s)[i] == (s[i].0@, s[i].1@),
    decreases s.len(),
{
    if s.len() > 0 {
        lemma_pairs_view(s.drop_last());
        assert(pairs_view(s) == pairs_view(s.drop_last()).push((s.last().0@, s.last().1@)));
        assert(pairs_view(s).len() == s.len());
        assert forall|i: int|
            0 <= i < s.len() implies pairs_view(s)[i] == (s[i].0@, s[i].1@) by {
            if i < s.len() - 1 {
                assert(s.drop_last()[i] == s[i]);
            } else {
                assert(s[i] == s.last());
            }
        }
    }
}

/// The largest payload length the wire format can carry.
pub open spec fn max_len() -> int {
    0xffff_ffff
}

impl Val {
    /// A value the wire format can represent: integers within the signed or
    /// unsigned 64-bit range, payload lengths within the 32-bit length
    /// headers, extension tags within a signed byte, and every nested value
    /// likewise.
    pub open spec fn wf(self) -> bool
        decreases self,
    {
        match self {
            Val::Nil => true,
            Val::Bool(_) => true,
            Val::Int(i) => i64::MIN as int <= i <= u64::MAX as int,
            Val::F64(_) => true,
            Val::Str(s) => vstd::utf8::encode_utf8(s).len() <= max_len(),
            Val::Bin(b) => b.len() <= max_len(),
            Val::Arr(elems) => elems.len() <= max_len() && all_wf(elems),
            Val::Dict(pairs) => pairs.len() <= max_len() && pairs_all_wf(pairs),
            Val::Ext(tag, data) => i8::MIN as int <= tag <= i8::MAX as int && data.len()
                <= max_len(),
        }
    }
}

impl Value {
    /// Runtime check that the wire format can represent this value, for
    /// callers outside the proof system: exactly the well-formedness the
    /// encoder asks for.
    #[verifier::loop_isolation(false)]
    pub fn is_wf(&self) -> (r: bool)
        ensures
            r == self@.wf(),
        decreases self,
    {
        broadcast use
            lemma_elems_view,
            lemma_pairs_view,
            vstd::std_specs::vec::group_vec_axioms,
        ;

        match self {
            Value::Nil => true,
            Value::Bool(_) => true,
            Value::Int(_) => true,
            Value::F64(_) => true,
            Value::Str(s) => s.as_str().as_bytes().len() <= 0xffff_ffff,
            Value::Bin(b) => b.len() <= 0xffff_ffff,
            Value::Arr(elems) => {
                if elems.len() > 0xffff_ffff {
                    proof {
                        assert(elems_view(elems@).len() == elems@.len());
                    }
                    return false;
                }
                let ghost vs = elems_view(elems@);
                let n = elems.len();
                let mut i: usize = 0;
                while i < n
                    invariant
                        i <= n,
                        forall|j: int| 0 <= j < i ==> (#[trigger] vs[j]).wf(),
                    decreases n - i,
                {
                    if !elems[i].is_wf() {
                        proof {
                            assert(!all_wf(vs)) by {
                                if all_wf(vs) {
                                    lemma_all_wf_index(vs, i as int);
                                }
                            }
                        }
                        return false;
                    }
                    i = i + 1;
                }
                proof {
                    lemma_all_wf_from_index(vs);
                }
                true
            },
            Value::Dict(pairs) => {
                if pairs.len() > 0xffff_ffff {
                    proof {
                        assert(pairs_view(pairs@).len() == pairs@.len());
                    }
                    return false;
                }
                let ghost ps = pairs_view(pairs@);
                let n = pairs.len();
                let mut i: usize = 0;
                while i < n
                    invariant
                        i <= n,
                        forall|j: int| 0 <= j < i ==> (#[trigger] ps[j]).0.wf() && ps[j].1.wf(),
                    decreases n - i,
                {
                    if !pairs[i].0.is_wf() || !pairs[i].1.is_wf() {
                        proof {
                            assert(!pairs_all_wf(ps)) by {
                                if pairs_all_wf(ps) {
                                    lemma_pairs_all_wf_index(ps, i as int);
                                }
                            }
                        }
                        return false;
                    }
                    i = i + 1;
                }
                proof {
                    lemma_pairs_all_wf_from_index(ps);
                }
                true
            },
            Value::Ext(_, data) => data.len() <= 0xffff_ffff,
        }
    }
}

/// Every value of the sequence is well-formed.
pub open spec fn all_wf(s: Seq<Val>) -> bool
    decreases s,
{
    s.len() == 0 || (s[0].wf() && all_wf(s.drop_first()))
}

/// Every key and every value of the pair sequence is well-formed.
pub open spec fn pairs_all_wf(s: Seq<(Val, Val)>) -> bool
    decreases s,
{
    s.len() == 0 || (s[0].0.wf() && s[0].1.wf() && pairs_all_wf(s.drop_first()))
}

/// An ASCII string no longer than the wire's length headers is a
/// well-formed string payload.
pub proof fn lemma_ascii_str_wf(s: Seq<char>)
    requires
        vstd::utf8::is_ascii_chars(s),
        s.len() <= max_len(),
    ensures
        Val::Str(s).wf(),
{
    vstd::utf8::is_ascii_chars_encode_utf8(s);
}

/// Each member of a well-formed sequence is well-formed.
pub broadcast proof fn lemma_all_wf_index(s: Seq<Val>, i: int)
    requires
        all_wf(s),
        0 <= i < s.len(),
    ensures
        (#[trigger] s[i]).wf(),
    decreases i,
{
    if i > 0 {
        lemma_all_wf_index(s.drop_first(), i - 1);
        assert(s.drop_first()[i - 1] == s[i]);
    }
}

/// Each member of a well-formed pair sequence is well-formed.
pub broadcast proof fn lemma_pairs_all_wf_index(s: Seq<(Val, Val)>, i: int)
    requires
        pairs_all_wf(s),
        0 <= i < s.len(),
    ensures
        (#[trigger] s[i]).0.wf() && s[i].1.wf(),
    decreases i,
{
    if i > 0 {
        lemma_pairs_all_wf_index(s.drop_first(), i - 1);
        assert(s.drop_first()[i - 1] == s[i]);
    }
}

/// A sequence whose members are all well-formed is well-formed.
pub proof fn lemma_all_wf_from_index(s: Seq<Val>)
    requires
        forall|i: int| 0 <= i < s.len() ==> (#[trigger] s[i]).wf(),
    ensures
        all_wf(s),
    decreases s.len(),
{
    if s.len() > 0 {
        let rest = s.drop_first();
        assert(forall|i: int| 0 <= i < rest.len() ==> #[trigger] rest[i] == s[i + 1]);
        lemma_all_wf_from_index(rest);
    }
}

/// A pair sequence whose members are all well-formed is well-formed.
pub proof fn lemma_pairs_all_wf_from_index(s: Seq<(Val, Val)>)
    requires
        forall|i: int| 0 <= i < s.len() ==> (#[trigger] s[i]).0.wf() && s[i].1.wf(),
    ensures
        pairs_all_wf(s),
    decreases s.len(),
{
    if s.len() > 0 {
        let rest = s.drop_first();
        assert(forall|i: int| 0 <= i < rest.len() ==> #[trigger] rest[i] == s[i + 1]);
        lemma_pairs_all_wf_from_index(rest);
    }
}

/// Prefixing a well-formed value keeps a sequence well-formed.
pub proof fn lemma_all_wf_cons(v: Val, s: Seq<Val>)
    requires
        v.wf(),
        all_wf(s),
    ensures
        all_wf(seq![v] + s),
{
    assert((seq![v] + s).drop_first() =~= s);
    assert((seq![v] + s)[0] == v);
}

/// Prefixing a well-formed pair keeps a pair sequence well-formed.
pub proof fn lemma_pairs_all_wf_cons(kv: (Val, Val), s: Seq<(Val, Val)>)
    requires
        kv.0.wf(),
        kv.1.wf(),
        pairs_all_wf(s),
    ensures
        pairs_all_wf(seq![kv] + s),
{
    assert((seq![kv] + s).drop_first() =~= s);
    assert((seq![kv] + s)[0] == kv);
}

} // verus!
