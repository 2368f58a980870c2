//! The raw value model: what one configuration document holds before the
//! reference resolver has turned it into concrete runners.
//!
//! A document is a tree of tables, arrays and scalars.  Scalar kinds the
//! resolver never reads (dates, floats) are kept as `Other`: they can be
//! carried through a merge, and they fail the schema check if they end up
//! in a field that needs a string, a boolean or a string array.

use vstd::prelude::*;

verus! {

/// One raw configuration value.
pub enum RawValue {
    Str(String),
    Int(i64),
    Bool(bool),
    Arr(Vec<RawValue>),
    Tbl(Vec<(String, RawValue)>),
    Other,
}

/// The mathematical shape of a `RawValue`: strings as character sequences,
/// tables as sequences of key/value pairs in declaration order.
#[verifier::ext_equal]
pub enum RawV {
    Str(Seq<char>),
    Int(int),
    Bool(bool),
    Arr(Seq<RawV>),
    Tbl(Seq<(Seq<char>, RawV)>),
    Other,
}

/// Deep view of a raw value.
pub open spec fn raw_view(v: RawValue) -> RawV
    decreases v,
    via raw_view_decreases
{
    match v {
        RawValue::Str(s) => RawV::Str(s@),
        RawValue::Int(i) => RawV::Int(i as int),
        RawValue::Bool(b) => RawV::Bool(b),
        RawValue::Arr(xs) => RawV::Arr(arr_view(xs@)),
        RawValue::Tbl(es) => RawV::Tbl(entries_view(es@)),
        RawValue::Other => RawV::Other,
    }
}

/// Deep view of a sequence of raw values.
pub open spec fn arr_view(s: Seq<RawValue>) -> Seq<RawV>
    decreases s,
    via arr_view_decreases
{
    if s.len() == 0 {
        Seq::empty()
    } else {
        arr_view(s.drop_last()).push(raw_view(s.last()))
    }
}

/// Deep view of a sequence of table entries.
pub open spec fn entries_view(s: Seq<(String, RawValue)>) -> Seq<(Seq<char>, RawV)>
    decreases s,
    via entries_view_decreases
{
    if s.len() == 0 {
        Seq::empty()
    } else {
        entries_view(s.drop_last()).push((s.last().0@, raw_view(s.last().1)))
    }
}

#[via_fn]
proof fn raw_view_decreases(v: RawValue) {
    match v {
        RawValue::Arr(xs) => {
            assert(decreases_to!(v => v->Arr_0));
            assert(decreases_to!(v->Arr_0 => v->Arr_0@));
        }
        RawValue::Tbl(es) => {
            assert(decreases_to!(v => v->Tbl_0));
            assert(decreases_to!(v->Tbl_0 => v->Tbl_0@));
        }
        _ => {}
    }
}

#[via_fn]
proof fn arr_view_decreases(s: Seq<RawValue>) {
    if s.len() > 0 {
        vstd::seq::axiom_seq_len_decreases(s, s.drop_last());
        assert(decreases_to!(s => s[s.len() - 1]));
    }
}

#[via_fn]
proof fn entries_view_decreases(s: Seq<(String, RawValue)>) {
    if s.len() > 0 {
        vstd::seq::axiom_seq_len_decreases(s, s.drop_last());
        assert(decreases_to!(s => s[s.len() - 1]));
        assert(decreases_to!(s[s.len() - 1] => s[s.len() - 1].1));
    }
}

/// The element view is the view of the element.
pub proof fn lemma_arr_view(s: Seq<RawValue>)
    ensures
        arr_view(s).len() == s.len(),
        forall|i: int| 0 <= i < s.len() ==> arr_view(s)[i] == raw_view(#[trigger] s[i]),
    decreases s.len(),
{
    if s.len() > 0 {
        lemma_arr_view(s.drop_last());
        assert forall|i: int| 0 <= i < s.len() implies arr_view(s)[i]
            == raw_view(#[trigger] s[i]) by {
            if i < s.len() - 1 {
                assert(s.drop_last()[i] == s[i]);
                assert(arr_view(s)[i] == arr_view(s.drop_last())[i]);
            } else {
                assert(s[i] == s.last());
            }
        }
    }
}

/// The entry view is the view of the key and the view of the value.
pub proof fn lemma_entries_view(s: Seq<(String, RawValue)>)
    ensures
        entries_view(s).len() == s.len(),
        forall|i: int| 0 <= i < s.len() ==> entries_view(s)[i]
            == ((#[trigger] s[i]).0@, raw_view(s[i].1)),
    decreases s.len(),
{
    if s.len() > 0 {
        lemma_entries_view(s.drop_last());
        assert forall|i: int| 0 <= i < s.len() implies entries_view(s)[i]
            == ((#[trigger] s[i]).0@, raw_view(s[i].1)) by {
            if i < s.len() - 1 {
                assert(s.drop_last()[i] == s[i]);
                assert(entries_view(s)[i] == entries_view(s.drop_last())[i]);
            } else {
                assert(s[i] == s.last());
            }
        }
    }
}

/// Deep view of a table held as an entry vector.
pub open spec fn tbl_view(es: Vec<(String, RawValue)>) -> Seq<(Seq<char>, RawV)> {
    entries_view(es@)
}

/// The value under `key` in a table, taking the first entry that matches.
/// Tables that come out of the parser have unique keys, so the first match
/// is the only one.
pub open spec fn tbl_get(t: Seq<(Seq<char>, RawV)>, key: Seq<char>) -> Option<RawV>
    decreases t.len(),
{
    if t.len() == 0 {
        None
    } else if t[0].0 == key {
        Some(t[0].1)
    } else {
        tbl_get(t.drop_first(), key)
    }
}

/// Character-by-character string equality.
pub fn str_eq(a: &str, b: &str) -> (r: bool)
    ensures
        r == (a@ == b@),
{
    let alen = a.unicode_len();
    let blen = b.unicode_len();
    if alen != blen {
        proof {
            assert(a@ != b@);
        }
        return false;
    }
    let mut i: usize = 0;
    while i < alen
        invariant
            alen == a@.len(),
            blen == b@.len(),
            alen == blen,
            i <= alen,
            forall|j: int| 0 <= j < i ==> a@[j] == b@[j],
        decreases alen - i,
    {
        if a.get_char(i) != b.get_char(i) {
            return false;
        }
        i = i + 1;
    }
    proof {
        assert(a@ =~= b@);
    }
    true
}

/// An exact copy of a raw value.
pub fn clone_raw(v: &RawValue) -> (r: RawValue)
    ensures
        raw_view(r) == raw_view(*v),
    decreases v,
{
    match v {
        RawValue::Str(s) => RawValue::Str(s.clone()),
        RawValue::Int(i) => RawValue::Int(*i),
        RawValue::Bool(b) => RawValue::Bool(*b),
        RawValue::Other => RawValue::Other,
        RawValue::Arr(xs) => {
            let mut out: Vec<RawValue> = Vec::new();
            let mut i: usize = 0;
            while i < xs.len()
                invariant
                    *v is Arr,
                    xs@ == (*v)->Arr_0@,
                    i <= xs.len(),
                    out@.len() == i,
                    forall|j: int| 0 <= j < i ==> raw_view(out@[j]) == raw_view(xs@[j]),
                decreases xs.len() - i,
            {
                proof {
                    assert(decreases_to!(*v => (*v)->Arr_0));
                    assert(decreases_to!((*v)->Arr_0 => (*v)->Arr_0@));
                    assert(decreases_to!((*v)->Arr_0@ => (*v)->Arr_0@[i as int]));
                }
                let c = clone_raw(&xs[i]);
                out.push(c);
                i = i + 1;
            }
            let r = RawValue::Arr(out);
            proof {
                lemma_arr_view(out@);
                lemma_arr_view(xs@);
                assert forall|j: int| 0 <= j < out@.len() implies arr_view(out@)[j]
                    == arr_view(xs@)[j] by {
                    assert(raw_view(out@[j]) == raw_view(xs@[j]));
                }
                assert(arr_view(out@) =~= arr_view(xs@));
            }
            r
        }
        RawValue::Tbl(es) => {
            let mut out: Vec<(String, RawValue)> = Vec::new();
            let mut i: usize = 0;
            while i < es.len()
                invariant
                    *v is Tbl,
                    es@ == (*v)->Tbl_0@,
                    i <= es.len(),
                    out@.len() == i,
                    forall|j: int| 0 <= j < i ==> (#[trigger] out@[j]).0@ == es@[j].0@
                        && raw_view(out@[j].1) == raw_view(es@[j].1),
                decreases es.len() - i,
            {
                proof {
                    assert(decreases_to!(*v => (*v)->Tbl_0));
                    assert(decreases_to!((*v)->Tbl_0 => (*v)->Tbl_0@));
                    assert(decreases_to!((*v)->Tbl_0@ => (*v)->Tbl_0@[i as int]));
                    assert(decreases_to!((*v)->Tbl_0@[i as int] => (*v)->Tbl_0@[i as int].1));
                }
                let c = clone_raw(&es[i].1);
                let k = es[i].0.clone();
                out.push((k, c));
                i = i + 1;
            }
            let r = RawValue::Tbl(out);
            proof {
                lemma_entries_view(out@);
                lemma_entries_view(es@);
                assert forall|j: int| 0 <= j < out@.len() implies entries_view(out@)[j]
                    == entries_view(es@)[j] by {
                    assert(out@[j].0@ == es@[j].0@ && raw_view(out@[j].1) == raw_view(es@[j].1));
                }
                assert(entries_view(out@) =~= entries_view(es@));
            }
            r
        }
    }
}

/// An exact copy of a table held as an entry vector.
pub fn clone_tbl(es: &Vec<(String, RawValue)>) -> (r: Vec<(String, RawValue)>)
    ensures
        tbl_view(r) == tbl_view(*es),
{
    let mut out: Vec<(String, RawValue)> = Vec::new();
    let mut i: usize = 0;
    while i < es.len()
        invariant
            i <= es.len(),
            out@.len() == i,
            forall|j: int| 0 <= j < i ==> (#[trigger] out@[j]).0@ == es@[j].0@
                && raw_view(out@[j].1) == raw_view(es@[j].1),
        decreases es.len() - i,
    {
        let c = clone_raw(&es[i].1);
        let k = es[i].0.clone();
        out.push((k, c));
        i = i + 1;
    }
    proof {
        lemma_entries_view(out@);
        lemma_entries_view(es@);
        assert forall|j: int| 0 <= j < out@.len() implies entries_view(out@)[j]
            == entries_view(es@)[j] by {
            assert(out@[j].0@ == es@[j].0@ && raw_view(out@[j].1) == raw_view(es@[j].1));
        }
        assert(entries_view(out@) =~= entries_view(es@));
    }
    out
}

} // verus!
