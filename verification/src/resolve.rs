//! The reference resolver and merger: turns the raw declarations of one
//! configuration document into a concrete runner set.
//!
//! Resolution walks five steps: flatten every declaration (solo, and each
//! group's array) into one ordered list; index the named declarations by
//! their fully-qualified key; resolve every `ref` declaration against that
//! index by merging it over its base; materialize every declaration into a
//! validated runner; and partition the runners into the group map and the
//! solo map.

use vstd::prelude::*;
use vstd::string::StringExecFns;

use crate::config::{
    first_key_index, groups_field_view, runners_view, solos_field_view, Config, ConfigV,
};
use crate::error::{Error, ErrorV};
use crate::parse::toml_doc_of;
use crate::runner::{Runner, RunnerV};
use crate::raw::{
    arr_view, clone_raw, clone_tbl, entries_view, lemma_arr_view, lemma_entries_view, raw_view,
    str_eq, tbl_get, tbl_view, RawV, RawValue,
};

verus! {

// ---------------------------------------------------------------------------
// Table operations
// ---------------------------------------------------------------------------

/// `t` with the first entry under `k` replaced by `v`, or `(k, v)` appended
/// when no entry carries `k`.
pub open spec fn tbl_set(t: Seq<(Seq<char>, RawV)>, k: Seq<char>, v: RawV) -> Seq<(Seq<char>, RawV)>
    decreases t.len(),
{
    if t.len() == 0 {
        seq![(k, v)]
    } else if t[0].0 == k {
        seq![(k, v)] + t.drop_first()
    } else {
        seq![t[0]] + tbl_set(t.drop_first(), k, v)
    }
}

/// Setting a key answers that key with the new value and leaves every other
/// key's lookup unchanged.
pub proof fn lemma_tbl_set_get(t: Seq<(Seq<char>, RawV)>, k: Seq<char>, v: RawV, k2: Seq<char>)
    ensures
        tbl_get(tbl_set(t, k, v), k2) == if k2 == k {
            Some(v)
        } else {
            tbl_get(t, k2)
        },
    decreases t.len(),
{
    if t.len() == 0 {
        let r = tbl_set(t, k, v);
        assert(r == seq![(k, v)]);
        assert(r[0] == (k, v));
        assert(r.drop_first() =~= Seq::<(Seq<char>, RawV)>::empty());
        if k2 == k {
            assert(tbl_get(r, k2) == Some(v));
        } else {
            assert(tbl_get(r, k2) == tbl_get(r.drop_first(), k2));
            assert(tbl_get(r.drop_first(), k2) is None);
        }
    } else if t[0].0 == k {
        let r = tbl_set(t, k, v);
        assert(r == seq![(k, v)] + t.drop_first());
        assert(r[0] == (k, v));
        assert(r.drop_first() =~= t.drop_first());
        if k2 == k {
            assert(tbl_get(r, k2) == Some(v));
        } else {
            assert(tbl_get(r, k2) == tbl_get(t.drop_first(), k2));
            assert(tbl_get(t, k2) == tbl_get(t.drop_first(), k2));
        }
    } else {
        let r = tbl_set(t, k, v);
        assert(r == seq![t[0]] + tbl_set(t.drop_first(), k, v));
        assert(r[0] == t[0]);
        assert(r.len() > 0);
        assert(r.drop_first() =~= tbl_set(t.drop_first(), k, v));
        lemma_tbl_set_get(t.drop_first(), k, v, k2);
        if t[0].0 == k2 {
            assert(tbl_get(r, k2) == Some(t[0].1));
            assert(tbl_get(t, k2) == Some(t[0].1));
        } else {
            assert(tbl_get(r, k2) == tbl_get(tbl_set(t.drop_first(), k, v), k2));
            assert(tbl_get(t, k2) == tbl_get(t.drop_first(), k2));
        }
    }
}

/// The first entry index whose key is `key`, scanning the table in order.
pub open spec fn tbl_index_of(t: Seq<(Seq<char>, RawV)>, key: Seq<char>) -> Option<int>
    decreases t.len(),
{
    if t.len() == 0 {
        None
    } else if t[0].0 == key {
        Some(0int)
    } else {
        match tbl_index_of(t.drop_first(), key) {
            Some(i) => Some(i + 1),
            None => None,
        }
    }
}

/// `tbl_index_of` and `tbl_get` agree: the lookup answers from the first
/// matching entry, and only from it.
pub proof fn lemma_tbl_index_of(t: Seq<(Seq<char>, RawV)>, key: Seq<char>)
    ensures
        match tbl_index_of(t, key) {
            Some(i) => 0 <= i < t.len() && t[i].0 == key && tbl_get(t, key) == Some(t[i].1)
                && (forall|j: int| 0 <= j < i ==> (#[trigger] t[j]).0 != key),
            None => tbl_get(t, key) is None && (forall|j: int|
                0 <= j < t.len() ==> (#[trigger] t[j]).0 != key),
        },
    decreases t.len(),
{
    if t.len() > 0 && t[0].0 != key {
        lemma_tbl_index_of(t.drop_first(), key);
        match tbl_index_of(t.drop_first(), key) {
            Some(i) => {
                assert(t.drop_first()[i] == t[i + 1]);
                assert forall|j: int| 0 <= j < i + 1 implies (#[trigger] t[j]).0 != key by {
                    if j > 0 {
                        assert(t[j] == t.drop_first()[j - 1]);
                    }
                }
            }
            None => {
                assert forall|j: int| 0 <= j < t.len() implies (#[trigger] t[j]).0 != key by {
                    if j > 0 {
                        assert(t[j] == t.drop_first()[j - 1]);
                    }
                }
            }
        }
    }
}

/// Finds the first entry of `es` whose key is `key`.
pub fn tbl_find(es: &Vec<(String, RawValue)>, key: &str) -> (r: Option<usize>)
    ensures
        match r {
            Some(i) => i < es@.len() && tbl_index_of(tbl_view(*es), key@) == Some(i as int),
            None => tbl_index_of(tbl_view(*es), key@) is None,
        },
        match r {
            Some(i) => tbl_get(tbl_view(*es), key@) == Some(raw_view(es@[i as int].1)),
            None => tbl_get(tbl_view(*es), key@) is None,
        },
{
    proof {
        lemma_entries_view(es@);
    }
    let mut i: usize = 0;
    while i < es.len()
        invariant
            i <= es@.len(),
            entries_view(es@).len() == es@.len(),
            forall|j: int| 0 <= j < es@.len() ==> entries_view(es@)[j]
                == ((#[trigger] es@[j]).0@, raw_view(es@[j].1)),
            forall|j: int| 0 <= j < i ==> (#[trigger] entries_view(es@)[j]).0 != key@,
        decreases es@.len() - i,
    {
        if str_eq(es[i].0.as_str(), key) {
            proof {
                lemma_tbl_index_first(tbl_view(*es), key@, i as int);
                lemma_tbl_index_of(tbl_view(*es), key@);
            }
            return Some(i);
        }
        i = i + 1;
    }
    proof {
        lemma_tbl_index_of(tbl_view(*es), key@);
        if tbl_index_of(tbl_view(*es), key@) is Some {
            let j = tbl_index_of(tbl_view(*es), key@)->0;
            assert(tbl_view(*es)[j].0 == key@);
            assert(false);
        }
    }
    None
}

/// A first match at `i` pins `tbl_index_of` to `i`.
proof fn lemma_tbl_index_first(t: Seq<(Seq<char>, RawV)>, key: Seq<char>, i: int)
    requires
        0 <= i < t.len(),
        t[i].0 == key,
        forall|j: int| 0 <= j < i ==> (#[trigger] t[j]).0 != key,
    ensures
        tbl_index_of(t, key) == Some(i),
    decreases t.len(),
{
    if i > 0 {
        assert forall|j: int| 0 <= j < i - 1 implies (#[trigger] t.drop_first()[j]).0 != key by {
            assert(t.drop_first()[j] == t[j + 1]);
        }
        assert(t.drop_first()[i - 1] == t[i]);
        lemma_tbl_index_first(t.drop_first(), key, i - 1);
    }
}

/// Setting a key whose first match stands at `i` replaces that entry in place.
proof fn lemma_tbl_set_at(t: Seq<(Seq<char>, RawV)>, k: Seq<char>, v: RawV, i: int)
    requires
        0 <= i < t.len(),
        t[i].0 == k,
        forall|j: int| 0 <= j < i ==> (#[trigger] t[j]).0 != k,
    ensures
        tbl_set(t, k, v) =~= t.update(i, (k, v)),
    decreases t.len(),
{
    if i == 0 {
        assert(tbl_set(t, k, v) == seq![(k, v)] + t.drop_first());
    } else {
        assert forall|j: int| 0 <= j < i - 1 implies (#[trigger] t.drop_first()[j]).0 != k by {
            assert(t.drop_first()[j] == t[j + 1]);
        }
        assert(t.drop_first()[i - 1] == t[i]);
        lemma_tbl_set_at(t.drop_first(), k, v, i - 1);
        assert(tbl_set(t, k, v) == seq![t[0]] + tbl_set(t.drop_first(), k, v));
    }
}

/// Setting a key that no entry carries appends the entry.
proof fn lemma_tbl_set_absent(t: Seq<(Seq<char>, RawV)>, k: Seq<char>, v: RawV)
    requires
        forall|j: int| 0 <= j < t.len() ==> (#[trigger] t[j]).0 != k,
    ensures
        tbl_set(t, k, v) =~= t.push((k, v)),
    decreases t.len(),
{
    if t.len() > 0 {
        assert forall|j: int| 0 <= j < t.drop_first().len() implies (#[trigger] t.drop_first()[j]).0
            != k by {
            assert(t.drop_first()[j] == t[j + 1]);
        }
        lemma_tbl_set_absent(t.drop_first(), k, v);
        assert(tbl_set(t, k, v) == seq![t[0]] + tbl_set(t.drop_first(), k, v));
    }
}

/// `es` with the first entry under `k` replaced by `v`, or `(k, v)` pushed.
pub fn tbl_set_exec(es: &mut Vec<(String, RawValue)>, k: String, v: RawValue)
    ensures
        tbl_view(*final(es)) == tbl_set(tbl_view(*old(es)), k@, raw_view(v)),
{
    proof {
        lemma_entries_view(es@);
    }
    let found = tbl_find(es, k.as_str());
    match found {
        Some(i) => {
            proof {
                lemma_tbl_index_of(tbl_view(*es), k@);
                lemma_tbl_set_at(tbl_view(*es), k@, raw_view(v), i as int);
            }
            let ghost before = *es;
            let ghost kv = (k@, raw_view(v));
            es[i] = (k, v);
            proof {
                lemma_entries_view(es@);
                lemma_entries_view(before@);
                let target = entries_view(before@).update(i as int, kv);
                assert forall|j: int| 0 <= j < es@.len() implies entries_view(es@)[j]
                    == target[j] by {
                    if j != i as int {
                        assert(es@[j] == before@[j]);
                    }
                }
                assert(entries_view(es@) =~= target);
            }
        }
        None => {
            proof {
                lemma_tbl_index_of(tbl_view(*es), k@);
                lemma_tbl_set_absent(tbl_view(*es), k@, raw_view(v));
            }
            let ghost before = *es;
            let ghost kv = (k@, raw_view(v));
            es.push((k, v));
            proof {
                lemma_entries_view(es@);
                lemma_entries_view(before@);
                let target = entries_view(before@).push(kv);
                assert forall|j: int| 0 <= j < es@.len() implies entries_view(es@)[j]
                    == target[j] by {
                    if j < before@.len() {
                        assert(es@[j] == before@[j]);
                    } else {
                        assert(es@[j] == (k, v));
                    }
                }
                assert(entries_view(es@) =~= target);
            }
        }
    }
}

// ---------------------------------------------------------------------------
// Merging a `ref` declaration over its base
// ---------------------------------------------------------------------------

/// Overlays onto `base` every entry of `ov` except `ref` (an instruction,
/// not data) and `args_add` (appended separately).  The first occurrence of
/// a key in `ov` wins, as in a key-unique table.
pub open spec fn merge_overlay(
    base: Seq<(Seq<char>, RawV)>,
    ov: Seq<(Seq<char>, RawV)>,
) -> Seq<(Seq<char>, RawV)>
    decreases ov.len(),
{
    if ov.len() == 0 {
        base
    } else {
        let rest = merge_overlay(base, ov.drop_first());
        if ov[0].0 == "ref"@ || ov[0].0 == "args_add"@ {
            rest
        } else {
            tbl_set(rest, ov[0].0, ov[0].1)
        }
    }
}

/// Appends the overlay's `args_add` array, if any, to the table's `args`
/// array: an absent `args` becomes the added items alone; a present array
/// grows at its end; anything else is left untouched.
pub open spec fn merge_args_add(
    t: Seq<(Seq<char>, RawV)>,
    ov: Seq<(Seq<char>, RawV)>,
) -> Seq<(Seq<char>, RawV)> {
    match tbl_get(ov, "args_add"@) {
        Some(RawV::Arr(aa)) => match tbl_get(t, "args"@) {
            None => tbl_set(t, "args"@, RawV::Arr(aa)),
            Some(RawV::Arr(b)) => tbl_set(t, "args"@, RawV::Arr(b + aa)),
            Some(_) => t,
        },
        _ => t,
    }
}

/// The full merge of a `ref` declaration over its base declaration.
pub open spec fn merge_tables(
    base: Seq<(Seq<char>, RawV)>,
    ov: Seq<(Seq<char>, RawV)>,
) -> Seq<(Seq<char>, RawV)> {
    merge_args_add(merge_overlay(base, ov), ov)
}

/// Merges the table of a `ref` declaration over the table of its base.
pub fn merge_runner_tables(
    base: &Vec<(String, RawValue)>,
    ov: &Vec<(String, RawValue)>,
) -> (r: Vec<(String, RawValue)>)
    ensures
        tbl_view(r) == merge_tables(tbl_view(*base), tbl_view(*ov)),
{
    proof {
        lemma_entries_view(ov@);
    }
    let mut t = clone_tbl(base);
    let mut i: usize = ov.len();
    proof {
        assert(entries_view(ov@).subrange(i as int, ov@.len() as int)
            =~= Seq::<(Seq<char>, RawV)>::empty());
    }
    while i > 0
        invariant
            i <= ov@.len(),
            entries_view(ov@).len() == ov@.len(),
            forall|j: int| 0 <= j < ov@.len() ==> entries_view(ov@)[j]
                == ((#[trigger] ov@[j]).0@, raw_view(ov@[j].1)),
            tbl_view(t) == merge_overlay(
                tbl_view(*base),
                entries_view(ov@).subrange(i as int, ov@.len() as int),
            ),
        decreases i,
    {
        i = i - 1;
        let ghost seg = entries_view(ov@).subrange(i as int, ov@.len() as int);
        proof {
            assert(seg[0] == (ov@[i as int].0@, raw_view(ov@[i as int].1)));
            assert(seg.drop_first() =~= entries_view(ov@).subrange(i as int + 1, ov@.len() as int));
        }
        if !str_eq(ov[i].0.as_str(), "ref") && !str_eq(ov[i].0.as_str(), "args_add") {
            let k = ov[i].0.clone();
            let v = clone_raw(&ov[i].1);
            tbl_set_exec(&mut t, k, v);
        }
        proof {
            assert(tbl_view(t) == merge_overlay(tbl_view(*base), seg));
        }
    }
    proof {
        assert(entries_view(ov@).subrange(0, ov@.len() as int) =~= entries_view(ov@));
        assert(tbl_view(t) == merge_overlay(tbl_view(*base), tbl_view(*ov)));
    }
    // The overlay's `args_add` array, if any, appends to `args`.
    let added = tbl_find(ov, "args_add");
    match added {
        Some(ai) => {
            match &ov[ai].1 {
                RawValue::Arr(aa) => {
                    let base_args = tbl_find(&t, "args");
                    match base_args {
                        None => {
                            let mut items: Vec<RawValue> = Vec::new();
                            append_cloned(&mut items, aa);
                            proof {
                                assert(arr_view(items@) =~= Seq::<RawV>::empty() + arr_view(aa@));
                                assert(arr_view(items@) =~= arr_view(aa@));
                            }
                            tbl_set_exec(&mut t, String::from_str("args"), RawValue::Arr(items));
                        }
                        Some(bi) => {
                            let is_arr = matches!(&t[bi].1, RawValue::Arr(_));
                            if is_arr {
                                let mut items: Vec<RawValue> = Vec::new();
                                match &t[bi].1 {
                                    RawValue::Arr(b) => {
                                        append_cloned(&mut items, b);
                                        proof {
                                            assert(arr_view(items@) =~= Seq::<RawV>::empty()
                                                + arr_view(b@));
                                        }
                                    }
                                    _ => {}
                                }
                                append_cloned(&mut items, aa);
                                tbl_set_exec(
                                    &mut t,
                                    String::from_str("args"),
                                    RawValue::Arr(items),
                                );
                            }
                        }
                    }
                }
                _ => {}
            }
        }
        None => {}
    }
    t
}

// ---------------------------------------------------------------------------
// Declaration holders and their classification
// ---------------------------------------------------------------------------

/// How a declaration is addressed: by its own name, or by the key of the
/// declaration it borrows from.
pub enum RunnerKind {
    Named(String),
    Refed(String),
}

/// One declaration in flattening order: its owning group (none for solo),
/// its raw table, and its classification.
pub struct RunnerHolder {
    pub group: Option<String>,
    pub table: Vec<(String, RawValue)>,
    pub kind: RunnerKind,
}

/// The mathematical shape of a `RunnerKind`.
#[verifier::ext_equal]
pub enum KindV {
    Named(Seq<char>),
    Refed(Seq<char>),
}

/// The mathematical shape of a `RunnerHolder`.
#[verifier::ext_equal]
pub struct HolderV {
    pub group: Option<Seq<char>>,
    pub table: Seq<(Seq<char>, RawV)>,
    pub kind: KindV,
}

impl View for RunnerKind {
    type V = KindV;

    open spec fn view(&self) -> KindV {
        match self {
            RunnerKind::Named(n) => KindV::Named(n@),
            RunnerKind::Refed(t) => KindV::Refed(t@),
        }
    }
}

impl View for RunnerHolder {
    type V = HolderV;

    open spec fn view(&self) -> HolderV {
        HolderV { group: opt_str_view(self.group), table: tbl_view(self.table), kind: self.kind@ }
    }
}

/// View of an optional string.
pub open spec fn opt_str_view(o: Option<String>) -> Option<Seq<char>> {
    match o {
        Some(s) => Some(s@),
        None => None,
    }
}

/// A table is named after its string `name` entry; failing that it refers
/// through its string `ref` entry; failing both it is invalid.
pub open spec fn kind_of_tbl(t: Seq<(Seq<char>, RawV)>) -> Option<KindV> {
    match tbl_get(t, "name"@) {
        Some(RawV::Str(n)) => Some(KindV::Named(n)),
        _ => match tbl_get(t, "ref"@) {
            Some(RawV::Str(r)) => Some(KindV::Refed(r)),
            _ => None,
        },
    }
}

/// The holder a declaration value yields: only a table with a name or a ref
/// qualifies.
pub open spec fn holder_of(g: Option<Seq<char>>, v: RawV) -> Option<HolderV> {
    match v {
        RawV::Tbl(t) => match kind_of_tbl(t) {
            Some(k) => Some(HolderV { group: g, table: t, kind: k }),
            None => None,
        },
        _ => None,
    }
}

/// Classifies one declaration value into a holder.
fn holder_new(group: Option<String>, value: RawValue) -> (r: Result<RunnerHolder, Error>)
    ensures
        match r {
            Ok(h) => holder_of(opt_str_view(group), raw_view(value)) == Some(h@),
            Err(e) => holder_of(opt_str_view(group), raw_view(value)) is None
                && e@ == ErrorV::NoNameOrRef,
        },
{
    match value {
        RawValue::Tbl(es) => {
            let named = tbl_find(&es, "name");
            match named {
                Some(i) => {
                    match &es[i].1 {
                        RawValue::Str(n) => {
                            let kind = RunnerKind::Named(n.clone());
                            return Ok(RunnerHolder { group, table: es, kind });
                        }
                        _ => {}
                    }
                }
                None => {}
            }
            let refed = tbl_find(&es, "ref");
            match refed {
                Some(i) => {
                    match &es[i].1 {
                        RawValue::Str(t) => {
                            let kind = RunnerKind::Refed(t.clone());
                            return Ok(RunnerHolder { group, table: es, kind });
                        }
                        _ => {}
                    }
                }
                None => {}
            }
            Err(Error::NoNameOrRef)
        }
        _ => Err(Error::NoNameOrRef),
    }
}

/// The fully-qualified key of a holder: `group.name` for a named holder in
/// a group, `.name` for a solo one; ref holders carry a `#` before the
/// target so that they can never be addressed.
pub open spec fn key_of(g: Option<Seq<char>>, k: KindV) -> Seq<char> {
    let gp = match g {
        Some(s) => s,
        None => Seq::<char>::empty(),
    };
    match k {
        KindV::Named(n) => gp + "."@ + n,
        KindV::Refed(r) => gp + "."@ + "#"@ + r,
    }
}

impl RunnerHolder {
    /// Classifies one declaration value into a holder.
    pub fn new(group: Option<String>, value: RawValue) -> (r: Result<RunnerHolder, Error>)
        ensures
            match r {
                Ok(h) => holder_of(opt_str_view(group), raw_view(value)) == Some(h@),
                Err(e) => holder_of(opt_str_view(group), raw_view(value)) is None
                    && e@ == ErrorV::NoNameOrRef,
            },
    {
        holder_new(group, value)
    }

    /// Whether this holder still refers to another declaration.
    pub fn is_refed(&self) -> (r: bool)
        ensures
            r == (self@.kind is Refed),
    {
        matches!(&self.kind, RunnerKind::Refed(_))
    }

    /// The fully-qualified key of this holder.
    pub fn get_key(&self) -> (r: String)
        ensures
            r@ == key_of(self@.group, self@.kind),
    {
        let gp = match &self.group {
            Some(s) => s.clone(),
            None => String::new(),
        };
        match &self.kind {
            RunnerKind::Named(n) => gp.concat(".").concat(n.as_str()),
            RunnerKind::Refed(r) => gp.concat(".").concat("#").concat(r.as_str()),
        }
    }

    /// An exact copy of this holder.
    pub fn clone_holder(&self) -> (r: RunnerHolder)
        ensures
            r@ == self@,
    {
        let group = match &self.group {
            Some(s) => Some(s.clone()),
            None => None,
        };
        let table = clone_tbl(&self.table);
        let kind = match &self.kind {
            RunnerKind::Named(n) => RunnerKind::Named(n.clone()),
            RunnerKind::Refed(t) => RunnerKind::Refed(t.clone()),
        };
        RunnerHolder { group, table, kind }
    }
}

// ---------------------------------------------------------------------------
// Looking a ref target up among the named holders
// ---------------------------------------------------------------------------

/// The index of the last named holder whose key is `key`: a later
/// declaration under the same key shadows an earlier one.  Ref holders are
/// never found.
pub open spec fn lookup_named(hs: Seq<HolderV>, key: Seq<char>) -> Option<int>
    decreases hs.len(),
{
    if hs.len() == 0 {
        None
    } else if hs.last().kind is Named && key_of(hs.last().group, hs.last().kind) == key {
        Some(hs.len() - 1)
    } else {
        lookup_named(hs.drop_last(), key)
    }
}

/// What `lookup_named` finds is a named holder under that key.
pub proof fn lemma_lookup_named(hs: Seq<HolderV>, key: Seq<char>)
    ensures
        match lookup_named(hs, key) {
            Some(i) => 0 <= i < hs.len() && hs[i].kind is Named
                && key_of(hs[i].group, hs[i].kind) == key,
            None => forall|j: int| 0 <= j < hs.len()
                ==> !((#[trigger] hs[j]).kind is Named && key_of(hs[j].group, hs[j].kind) == key),
        },
    decreases hs.len(),
{
    if hs.len() > 0 {
        lemma_lookup_named(hs.drop_last(), key);
        if !(hs.last().kind is Named && key_of(hs.last().group, hs.last().kind) == key) {
            if lookup_named(hs.drop_last(), key) is None {
                assert forall|j: int| 0 <= j < hs.len() implies !((#[trigger] hs[j]).kind is Named
                    && key_of(hs[j].group, hs[j].kind) == key) by {
                    if j < hs.len() - 1 {
                        assert(hs.drop_last()[j] == hs[j]);
                    }
                }
            } else {
                let i = lookup_named(hs.drop_last(), key)->0;
                assert(hs.drop_last()[i] == hs[i]);
            }
        }
    }
}

/// Finds the last named holder carrying `key`, as the pre-resolution index
/// would: holders are scanned as they were classified, so a resolved ref is
/// never a target.
fn lookup_named_exec(hs: &Vec<RunnerHolder>, key: &str) -> (r: Option<usize>)
    ensures
        match r {
            Some(i) => i < hs@.len() && lookup_named(holders_view(*hs), key@) == Some(i as int),
            None => lookup_named(holders_view(*hs), key@) is None,
        },
{
    let mut i: usize = hs.len();
    proof {
        assert(holders_view(*hs).subrange(0, hs@.len() as int) =~= holders_view(*hs));
    }
    while i > 0
        invariant
            i <= hs@.len(),
            holders_view(*hs).len() == hs@.len(),
            forall|j: int| 0 <= j < hs@.len() ==> holders_view(*hs)[j] == (#[trigger] hs@[j])@,
            lookup_named(holders_view(*hs), key@)
                == lookup_named(holders_view(*hs).subrange(0, i as int), key@),
        decreases i,
    {
        i = i - 1;
        let ghost pre = holders_view(*hs).subrange(0, i as int + 1);
        proof {
            assert(pre.drop_last() =~= holders_view(*hs).subrange(0, i as int));
            assert(pre.last() == holders_view(*hs)[i as int]);
        }
        let is_named_match = match &hs[i].kind {
            RunnerKind::Named(_) => {
                let k = hs[i].get_key();
                str_eq(k.as_str(), key)
            }
            RunnerKind::Refed(_) => false,
        };
        if is_named_match {
            return Some(i);
        }
    }
    proof {
        assert(holders_view(*hs).subrange(0, 0) =~= Seq::<HolderV>::empty());
    }
    None
}

/// The views of a holder vector.
pub open spec fn holders_view(hs: Vec<RunnerHolder>) -> Seq<HolderV> {
    Seq::new(hs@.len(), |i: int| hs@[i]@)
}

// ---------------------------------------------------------------------------
// Resolving every ref declaration
// ---------------------------------------------------------------------------

/// Resolves one holder against the pre-resolution holder list `hs`: a named
/// holder stands as it is; a ref holder is replaced by the merge of its
/// declaration over its target's, which must itself qualify as named.
pub open spec fn resolve_holder(hs: Seq<HolderV>, h: HolderV) -> Result<HolderV, ErrorV> {
    match h.kind {
        KindV::Named(_) => Ok(h),
        KindV::Refed(target) => match lookup_named(hs, target) {
            None => Err(ErrorV::RefNotFound(target)),
            Some(i) => {
                if hs[i].kind is Refed {
                    Err(ErrorV::RefToRef(key_of(h.group, h.kind)))
                } else {
                    let m = merge_tables(hs[i].table, h.table);
                    match kind_of_tbl(m) {
                        Some(KindV::Named(n)) => Ok(
                            HolderV { group: h.group, table: m, kind: KindV::Named(n) },
                        ),
                        _ => Err(ErrorV::NoNameOrRef),
                    }
                }
            }
        },
    }
}

/// The first `n` holders resolved, stopping at the first failure.
pub open spec fn resolve_upto(hs: Seq<HolderV>, n: int) -> Result<Seq<HolderV>, ErrorV>
    decreases n,
{
    if n <= 0 {
        Ok(Seq::empty())
    } else {
        match resolve_upto(hs, n - 1) {
            Err(e) => Err(e),
            Ok(rs) => match resolve_holder(hs, hs[n - 1]) {
                Err(e) => Err(e),
                Ok(h) => Ok(rs.push(h)),
            },
        }
    }
}

/// Every holder resolved, in declaration order, each against the
/// pre-resolution list.
pub open spec fn resolve_all(hs: Seq<HolderV>) -> Result<Seq<HolderV>, ErrorV> {
    resolve_upto(hs, hs.len() as int)
}

/// A failed prefix fails the whole resolution with the same error.
proof fn lemma_resolve_upto_err(hs: Seq<HolderV>, n1: int, n2: int)
    requires
        0 <= n1 <= n2,
        resolve_upto(hs, n1) is Err,
    ensures
        resolve_upto(hs, n2) == resolve_upto(hs, n1),
    decreases n2,
{
    if n2 > n1 {
        lemma_resolve_upto_err(hs, n1, n2 - 1);
    }
}

/// Resolves every ref declaration, merging it over its named target.
pub fn resolve_refs(holders: &Vec<RunnerHolder>) -> (r: Result<Vec<RunnerHolder>, Error>)
    ensures
        match r {
            Ok(rs) => resolve_all(holders_view(*holders)) matches Ok(s) && s
                == holders_view(rs),
            Err(e) => resolve_all(holders_view(*holders)) matches Err(ev) && ev == e@,
        },
{
    let ghost hv = holders_view(*holders);
    let mut out: Vec<RunnerHolder> = Vec::new();
    let mut i: usize = 0;
    while i < holders.len()
        invariant
            i <= hv.len(),
            hv == holders_view(*holders),
            hv.len() == holders@.len(),
            forall|j: int| 0 <= j < hv.len() ==> hv[j] == (#[trigger] holders@[j])@,
            resolve_upto(hv, i as int) matches Ok(s) && s == holders_view(out),
        decreases hv.len() - i,
    {
        let ghost prev = resolve_upto(hv, i as int)->Ok_0;
        match &holders[i].kind {
            RunnerKind::Named(_) => {
                let c = holders[i].clone_holder();
                out.push(c);
                proof {
                    assert(resolve_holder(hv, hv[i as int]) == Ok::<HolderV, ErrorV>(
                        hv[i as int],
                    ));
                    assert(holders_view(out) =~= prev.push(hv[i as int]));
                }
            }
            RunnerKind::Refed(target) => {
                let t = target.clone();
                let found = lookup_named_exec(holders, t.as_str());
                match found {
                    None => {
                        proof {
                            lemma_resolve_upto_err(hv, i as int + 1, hv.len() as int);
                        }
                        return Err(Error::RefNotFound(t));
                    }
                    Some(b) => {
                        let base_is_ref = holders[b].is_refed();
                        if base_is_ref {
                            let key = holders[i].get_key();
                            proof {
                                lemma_resolve_upto_err(hv, i as int + 1, hv.len() as int);
                            }
                            return Err(Error::RefToRef(key));
                        }
                        let merged = merge_runner_tables(&holders[b].table, &holders[i].table);
                        let group = match &holders[i].group {
                            Some(g) => Some(g.clone()),
                            None => None,
                        };
                        let made = RunnerHolder::new(group, RawValue::Tbl(merged));
                        match made {
                            Err(e) => {
                                proof {
                                    lemma_resolve_upto_err(hv, i as int + 1, hv.len() as int);
                                }
                                return Err(e);
                            }
                            Ok(h) => {
                                let new_is_ref = h.is_refed();
                                if new_is_ref {
                                    proof {
                                        lemma_resolve_upto_err(hv, i as int + 1, hv.len() as int);
                                    }
                                    return Err(Error::NoNameOrRef);
                                }
                                out.push(h);
                                proof {
                                    assert(resolve_holder(hv, hv[i as int]) matches Ok(x)
                                        && x == holders_view(out).last());
                                    assert(holders_view(out) =~= prev.push(
                                        holders_view(out).last(),
                                    ));
                                }
                            }
                        }
                    }
                }
            }
        }
        i = i + 1;
    }
    proof {
        assert(resolve_all(hv) == resolve_upto(hv, hv.len() as int));
    }
    Ok(out)
}

// ---------------------------------------------------------------------------
// Materializing a declaration into a validated runner
// ---------------------------------------------------------------------------

/// A required string field: absent or non-string is a schema error.
pub open spec fn req_str(t: Seq<(Seq<char>, RawV)>, k: Seq<char>) -> Result<Seq<char>, ErrorV> {
    match tbl_get(t, k) {
        Some(RawV::Str(s)) => Ok(s),
        Some(_) => Err(ErrorV::BadFieldType(k)),
        None => Err(ErrorV::MissingField(k)),
    }
}

/// An optional string field: present but non-string is a schema error.
pub open spec fn opt_str(t: Seq<(Seq<char>, RawV)>, k: Seq<char>) -> Result<
    Option<Seq<char>>,
    ErrorV,
> {
    match tbl_get(t, k) {
        Some(RawV::Str(s)) => Ok(Some(s)),
        Some(_) => Err(ErrorV::BadFieldType(k)),
        None => Ok(None),
    }
}

/// An optional boolean field, false when absent.
pub open spec fn opt_bool(t: Seq<(Seq<char>, RawV)>, k: Seq<char>) -> Result<bool, ErrorV> {
    match tbl_get(t, k) {
        Some(RawV::Bool(b)) => Ok(b),
        Some(_) => Err(ErrorV::BadFieldType(k)),
        None => Ok(false),
    }
}

/// The strings of an array value; `None` when any element is not a string.
pub open spec fn str_items(xs: Seq<RawV>) -> Option<Seq<Seq<char>>>
    decreases xs.len(),
{
    if xs.len() == 0 {
        Some(Seq::empty())
    } else {
        match str_items(xs.drop_last()) {
            None => None,
            Some(ss) => match xs.last() {
                RawV::Str(s) => Some(ss.push(s)),
                _ => None,
            },
        }
    }
}

/// The `args` field: an array of strings, empty when absent.
pub open spec fn opt_args(t: Seq<(Seq<char>, RawV)>) -> Result<Seq<Seq<char>>, ErrorV> {
    match tbl_get(t, "args"@) {
        None => Ok(Seq::empty()),
        Some(RawV::Arr(xs)) => match str_items(xs) {
            Some(ss) => Ok(ss),
            None => Err(ErrorV::BadFieldType("args"@)),
        },
        Some(_) => Err(ErrorV::BadFieldType("args"@)),
    }
}

/// The `when.no_file_at` run-condition, if declared.
pub open spec fn opt_when(t: Seq<(Seq<char>, RawV)>) -> Result<Option<Seq<char>>, ErrorV> {
    match tbl_get(t, "when"@) {
        None => Ok(None),
        Some(RawV::Tbl(w)) => match tbl_get(w, "no_file_at"@) {
            None => Ok(None),
            Some(RawV::Str(p)) => Ok(Some(p)),
            Some(_) => Err(ErrorV::BadFieldType("when.no_file_at"@)),
        },
        Some(_) => Err(ErrorV::BadFieldType("when"@)),
    }
}

/// The validated runner a declaration table denotes: `name` and `cmd` are
/// required strings; every other field is optional and type-checked.
pub open spec fn runner_of_tbl(t: Seq<(Seq<char>, RawV)>) -> Result<RunnerV, ErrorV> {
    match req_str(t, "name"@) {
        Err(e) => Err(e),
        Ok(name) => match req_str(t, "cmd"@) {
            Err(e) => Err(e),
            Ok(cmd) => match opt_str(t, "working_dir"@) {
                Err(e) => Err(e),
                Ok(working_dir) => match opt_args(t) {
                    Err(e) => Err(e),
                    Ok(args) => match opt_bool(t, "concurrent"@) {
                        Err(e) => Err(e),
                        Ok(concurrent) => match opt_bool(t, "end_all_on_exit"@) {
                            Err(e) => Err(e),
                            Ok(end_all_on_exit) => match opt_when(t) {
                                Err(e) => Err(e),
                                Ok(when_no_file_at) => Ok(
                                    RunnerV {
                                        name,
                                        working_dir,
                                        cmd,
                                        args,
                                        concurrent,
                                        end_all_on_exit,
                                        when_no_file_at,
                                    },
                                ),
                            },
                        },
                    },
                },
            },
        },
    }
}

/// Extracts a required string field.
fn take_req_str(es: &Vec<(String, RawValue)>, k: &str) -> (r: Result<String, Error>)
    ensures
        match r {
            Ok(s) => req_str(tbl_view(*es), k@) == Ok::<Seq<char>, ErrorV>(s@),
            Err(e) => req_str(tbl_view(*es), k@) == Err::<Seq<char>, ErrorV>(e@),
        },
{
    let found = tbl_find(es, k);
    match found {
        Some(i) => match &es[i].1 {
            RawValue::Str(s) => Ok(s.clone()),
            _ => Err(Error::BadFieldType(k.to_owned())),
        },
        None => Err(Error::MissingField(k.to_owned())),
    }
}

/// Extracts an optional string field.
fn take_opt_str(es: &Vec<(String, RawValue)>, k: &str) -> (r: Result<Option<String>, Error>)
    ensures
        match r {
            Ok(s) => opt_str(tbl_view(*es), k@) == Ok::<Option<Seq<char>>, ErrorV>(
                opt_str_view(s),
            ),
            Err(e) => opt_str(tbl_view(*es), k@) == Err::<Option<Seq<char>>, ErrorV>(e@),
        },
{
    let found = tbl_find(es, k);
    match found {
        Some(i) => match &es[i].1 {
            RawValue::Str(s) => Ok(Some(s.clone())),
            _ => Err(Error::BadFieldType(k.to_owned())),
        },
        None => Ok(None),
    }
}

/// Extracts an optional boolean field, false when absent.
fn take_opt_bool(es: &Vec<(String, RawValue)>, k: &str) -> (r: Result<bool, Error>)
    ensures
        match r {
            Ok(b) => opt_bool(tbl_view(*es), k@) == Ok::<bool, ErrorV>(b),
            Err(e) => opt_bool(tbl_view(*es), k@) == Err::<bool, ErrorV>(e@),
        },
{
    let found = tbl_find(es, k);
    match found {
        Some(i) => match &es[i].1 {
            RawValue::Bool(b) => Ok(*b),
            _ => Err(Error::BadFieldType(k.to_owned())),
        },
        None => Ok(false),
    }
}

/// Extracts the `args` array of strings, empty when absent.
fn take_args(es: &Vec<(String, RawValue)>) -> (r: Result<Vec<String>, Error>)
    ensures
        match r {
            Ok(v) => opt_args(tbl_view(*es)) == Ok::<Seq<Seq<char>>, ErrorV>(v.deep_view()),
            Err(e) => opt_args(tbl_view(*es)) == Err::<Seq<Seq<char>>, ErrorV>(e@),
        },
{
    let found = tbl_find(es, "args");
    match found {
        None => {
            let out: Vec<String> = Vec::new();
            proof {
                assert(out.deep_view() =~= Seq::<Seq<char>>::empty());
            }
            Ok(out)
        }
        Some(i) => match &es[i].1 {
            RawValue::Arr(xs) => {
                proof {
                    lemma_arr_view(xs@);
                    assert(raw_view(es@[i as int].1) == RawV::Arr(arr_view(xs@)));
                }
                let mut out: Vec<String> = Vec::new();
                let mut j: usize = 0;
                while j < xs.len()
                    invariant
                        j <= xs@.len(),
                        tbl_get(tbl_view(*es), "args"@) == Some(RawV::Arr(arr_view(xs@))),
                        arr_view(xs@).len() == xs@.len(),
                        forall|l: int| 0 <= l < xs@.len() ==> arr_view(xs@)[l] == raw_view(
                            #[trigger] xs@[l],
                        ),
                        out@.len() == j,
                        str_items(arr_view(xs@).subrange(0, j as int)) == Some(out.deep_view()),
                    decreases xs@.len() - j,
                {
                    let ghost pre = arr_view(xs@).subrange(0, j as int + 1);
                    proof {
                        assert(pre.drop_last() =~= arr_view(xs@).subrange(0, j as int));
                        assert(pre.last() == arr_view(xs@)[j as int]);
                    }
                    match &xs[j] {
                        RawValue::Str(s) => {
                            out.push(s.clone());
                            proof {
                                assert(out.deep_view() =~= str_items(pre)->0);
                            }
                        }
                        _ => {
                            proof {
                                lemma_str_items_err(arr_view(xs@), j as int);
                            }
                            return Err(Error::BadFieldType(String::from_str("args")));
                        }
                    }
                    j = j + 1;
                }
                proof {
                    assert(arr_view(xs@).subrange(0, xs@.len() as int) =~= arr_view(xs@));
                }
                Ok(out)
            }
            _ => Err(Error::BadFieldType(String::from_str("args"))),
        },
    }
}

/// A non-string element anywhere makes `str_items` fail.
proof fn lemma_str_items_err(xs: Seq<RawV>, i: int)
    requires
        0 <= i < xs.len(),
        !(xs[i] is Str),
    ensures
        str_items(xs) is None,
    decreases xs.len(),
{
    if xs.len() > 0 {
        if i < xs.len() - 1 {
            assert(xs.drop_last()[i] == xs[i]);
            lemma_str_items_err(xs.drop_last(), i);
        }
    }
}

/// Extracts the `when.no_file_at` run-condition.
fn take_when(es: &Vec<(String, RawValue)>) -> (r: Result<Option<String>, Error>)
    ensures
        match r {
            Ok(s) => opt_when(tbl_view(*es)) == Ok::<Option<Seq<char>>, ErrorV>(opt_str_view(s)),
            Err(e) => opt_when(tbl_view(*es)) == Err::<Option<Seq<char>>, ErrorV>(e@),
        },
{
    let found = tbl_find(es, "when");
    match found {
        None => Ok(None),
        Some(i) => match &es[i].1 {
            RawValue::Tbl(w) => {
                let inner = tbl_find(w, "no_file_at");
                match inner {
                    None => Ok(None),
                    Some(j) => match &w[j].1 {
                        RawValue::Str(p) => Ok(Some(p.clone())),
                        _ => Err(Error::BadFieldType(String::from_str("when.no_file_at"))),
                    },
                }
            }
            _ => Err(Error::BadFieldType(String::from_str("when"))),
        },
    }
}

/// Materializes one declaration table into a validated runner.
pub fn runner_from_tbl(es: &Vec<(String, RawValue)>) -> (r: Result<Runner, Error>)
    ensures
        match r {
            Ok(run) => runner_of_tbl(tbl_view(*es)) == Ok::<RunnerV, ErrorV>(run@),
            Err(e) => runner_of_tbl(tbl_view(*es)) == Err::<RunnerV, ErrorV>(e@),
        },
{
    let name = match take_req_str(es, "name") {
        Ok(s) => s,
        Err(e) => {
            return Err(e);
        }
    };
    let cmd = match take_req_str(es, "cmd") {
        Ok(s) => s,
        Err(e) => {
            return Err(e);
        }
    };
    let working_dir = match take_opt_str(es, "working_dir") {
        Ok(s) => s,
        Err(e) => {
            return Err(e);
        }
    };
    let args = match take_args(es) {
        Ok(v) => v,
        Err(e) => {
            return Err(e);
        }
    };
    let concurrent = match take_opt_bool(es, "concurrent") {
        Ok(b) => b,
        Err(e) => {
            return Err(e);
        }
    };
    let end_all_on_exit = match take_opt_bool(es, "end_all_on_exit") {
        Ok(b) => b,
        Err(e) => {
            return Err(e);
        }
    };
    let when_no_file_at = match take_when(es) {
        Ok(s) => s,
        Err(e) => {
            return Err(e);
        }
    };
    Ok(Runner { name, working_dir, cmd, args, concurrent, end_all_on_exit, when_no_file_at })
}

// ---------------------------------------------------------------------------
// Flattening a document into one ordered declaration list
// ---------------------------------------------------------------------------

/// The views of a tagged declaration list.
pub open spec fn decls_view(ds: Seq<(Option<String>, RawValue)>) -> Seq<
    (Option<Seq<char>>, RawV),
> {
    Seq::new(ds.len(), |i: int| (opt_str_view(ds[i].0), raw_view(ds[i].1)))
}

/// The declarations one group entry contributes: its array's items, each
/// tagged with the group name; a non-array group is ignored.
pub open spec fn group_segment(e: (Seq<char>, RawV)) -> Seq<(Option<Seq<char>>, RawV)> {
    match e.1 {
        RawV::Arr(items) => Seq::new(items.len(), |i: int| (Some(e.0), items[i])),
        _ => Seq::empty(),
    }
}

/// The declarations of a whole group table, in group order.
pub open spec fn group_decls(gs: Seq<(Seq<char>, RawV)>) -> Seq<(Option<Seq<char>>, RawV)>
    decreases gs.len(),
{
    if gs.len() == 0 {
        Seq::empty()
    } else {
        group_decls(gs.drop_last()) + group_segment(gs.last())
    }
}

/// The solo declarations: the `runner` array's items, untagged; anything
/// but an array is ignored.
pub open spec fn solo_segment(v: Option<RawV>) -> Seq<(Option<Seq<char>>, RawV)> {
    match v {
        Some(RawV::Arr(items)) => Seq::new(items.len(), |i: int| (None, items[i])),
        _ => Seq::empty(),
    }
}

/// The group table under `runners`, if it is a table.
pub open spec fn groups_entries(root: Seq<(Seq<char>, RawV)>) -> Seq<(Seq<char>, RawV)> {
    match tbl_get(root, "runners"@) {
        Some(RawV::Tbl(gs)) => gs,
        _ => Seq::empty(),
    }
}

/// Every declaration of the document in one ordered list: each group's
/// array in group order first, then the solo array.
pub open spec fn flatten_doc(root: Seq<(Seq<char>, RawV)>) -> Seq<(Option<Seq<char>>, RawV)> {
    group_decls(groups_entries(root)) + solo_segment(tbl_get(root, "runner"@))
}

/// Flattens the document's groups and solo declarations into one list.
pub fn flatten_doc_exec(root: &Vec<(String, RawValue)>) -> (r: Vec<(Option<String>, RawValue)>)
    ensures
        decls_view(r@) == flatten_doc(tbl_view(*root)),
{
    let mut decls: Vec<(Option<String>, RawValue)> = Vec::new();
    let ghost gsv = groups_entries(tbl_view(*root));
    let groups_found = tbl_find(root, "runners");
    match groups_found {
        Some(ri) => {
            match &root[ri].1 {
                RawValue::Tbl(groups) => {
                    proof {
                        lemma_entries_view(groups@);
                        assert(raw_view(root@[ri as int].1) == RawV::Tbl(entries_view(groups@)));
                        assert(gsv == entries_view(groups@));
                        assert(gsv.subrange(0, 0) =~= Seq::<(Seq<char>, RawV)>::empty());
                        assert(decls_view(decls@) =~= group_decls(gsv.subrange(0, 0)));
                    }
                    let mut gi: usize = 0;
                    while gi < groups.len()
                        invariant
                            gi <= groups@.len(),
                            gsv.len() == groups@.len(),
                            forall|j: int| 0 <= j < groups@.len() ==> gsv[j]
                                == ((#[trigger] groups@[j]).0@, raw_view(groups@[j].1)),
                            decls_view(decls@) == group_decls(gsv.subrange(0, gi as int)),
                        decreases groups@.len() - gi,
                    {
                        let ghost gpre = gsv.subrange(0, gi as int + 1);
                        proof {
                            assert(gpre.drop_last() =~= gsv.subrange(0, gi as int));
                            assert(gpre.last() == gsv[gi as int]);
                        }
                        match &groups[gi].1 {
                            RawValue::Arr(items) => {
                                proof {
                                    lemma_arr_view(items@);
                                    assert(gsv[gi as int].1 == RawV::Arr(arr_view(items@)));
                                }
                                let mut k: usize = 0;
                                while k < items.len()
                                    invariant
                                        k <= items@.len(),
                                        gi < groups@.len(),
                                        gsv.len() == groups@.len(),
                                        gsv[gi as int].1 == RawV::Arr(arr_view(items@)),
                                        gsv[gi as int].0 == groups@[gi as int].0@,
                                        arr_view(items@).len() == items@.len(),
                                        forall|l: int| 0 <= l < items@.len()
                                            ==> arr_view(items@)[l] == raw_view(
                                            #[trigger] items@[l],
                                        ),
                                        decls_view(decls@) == group_decls(
                                            gsv.subrange(0, gi as int),
                                        ) + group_segment(gsv[gi as int]).subrange(0, k as int),
                                    decreases items@.len() - k,
                                {
                                    let item = clone_raw(&items[k]);
                                    let tag = Some(groups[gi].0.clone());
                                    let ghost gpair = (opt_str_view(tag), raw_view(item));
                                    let ghost dpre = decls@;
                                    decls.push((tag, item));
                                    proof {
                                        let seg = group_segment(gsv[gi as int]);
                                        let prefix = group_decls(gsv.subrange(0, gi as int));
                                        assert(seg[k as int] == gpair);
                                        assert forall|j: int| 0 <= j < decls@.len() implies
                                            decls_view(decls@)[j] == decls_view(dpre).push(
                                            gpair,
                                        )[j] by {
                                            if j < dpre.len() {
                                                assert(decls@[j] == dpre[j]);
                                            } else {
                                                assert(decls@[j].0 == tag
                                                    && decls@[j].1 == item);
                                            }
                                        }
                                        assert(decls_view(decls@) =~= decls_view(dpre).push(
                                            gpair,
                                        ));
                                        assert(prefix + seg.subrange(0, k as int + 1) =~= (prefix
                                            + seg.subrange(0, k as int)).push(seg[k as int]));
                                    }
                                    k = k + 1;
                                }
                                proof {
                                    let seg = group_segment(gsv[gi as int]);
                                    assert(seg.subrange(0, items@.len() as int) =~= seg);
                                    assert(decls_view(decls@) =~= group_decls(gpre));
                                }
                            }
                            _ => {
                                proof {
                                    assert(group_segment(gsv[gi as int]) =~= Seq::<
                                        (Option<Seq<char>>, RawV),
                                    >::empty());
                                    assert(decls_view(decls@) =~= group_decls(gpre));
                                }
                            }
                        }
                        gi = gi + 1;
                    }
                    proof {
                        assert(gsv.subrange(0, gsv.len() as int) =~= gsv);
                    }
                }
                _ => {
                    proof {
                        assert(gsv =~= Seq::<(Seq<char>, RawV)>::empty());
                    }
                }
            }
        }
        None => {
            proof {
                assert(gsv =~= Seq::<(Seq<char>, RawV)>::empty());
            }
        }
    }
    proof {
        assert(decls_view(decls@) =~= group_decls(gsv));
    }
    // Solo declarations follow the grouped ones.
    let ghost sv = solo_segment(tbl_get(tbl_view(*root), "runner"@));
    let solos_found = tbl_find(root, "runner");
    match solos_found {
        Some(si) => {
            match &root[si].1 {
                RawValue::Arr(items) => {
                    proof {
                        lemma_arr_view(items@);
                        assert(raw_view(root@[si as int].1) == RawV::Arr(arr_view(items@)));
                    }
                    let mut k: usize = 0;
                    while k < items.len()
                        invariant
                            k <= items@.len(),
                            sv.len() == items@.len(),
                            arr_view(items@).len() == items@.len(),
                            forall|l: int| 0 <= l < items@.len() ==> arr_view(items@)[l]
                                == raw_view(#[trigger] items@[l]),
                            forall|l: int| 0 <= l < items@.len() ==> sv[l] == (
                                None::<Seq<char>>,
                                arr_view(items@)[l],
                            ),
                            decls_view(decls@) == group_decls(gsv) + sv.subrange(0, k as int),
                        decreases items@.len() - k,
                    {
                        let item = clone_raw(&items[k]);
                        let ghost gpair = (None::<Seq<char>>, raw_view(item));
                        let ghost dpre = decls@;
                        decls.push((None, item));
                        proof {
                            assert(sv[k as int] == gpair);
                            assert forall|j: int| 0 <= j < decls@.len() implies decls_view(
                                decls@,
                            )[j] == decls_view(dpre).push(gpair)[j] by {
                                if j < dpre.len() {
                                    assert(decls@[j] == dpre[j]);
                                } else {
                                    assert(decls@[j].1 == item);
                                }
                            }
                            assert(decls_view(decls@) =~= decls_view(dpre).push(gpair));
                            assert(group_decls(gsv) + sv.subrange(0, k as int + 1) =~= (group_decls(
                                gsv,
                            ) + sv.subrange(0, k as int)).push(sv[k as int]));
                        }
                        k = k + 1;
                    }
                    proof {
                        assert(sv.subrange(0, sv.len() as int) =~= sv);
                    }
                }
                _ => {
                    proof {
                        assert(sv =~= Seq::<(Option<Seq<char>>, RawV)>::empty());
                    }
                }
            }
        }
        None => {
            proof {
                assert(sv =~= Seq::<(Option<Seq<char>>, RawV)>::empty());
            }
        }
    }
    proof {
        assert(decls_view(decls@) =~= group_decls(gsv) + sv);
    }
    decls
}

// ---------------------------------------------------------------------------
// Classifying every declaration
// ---------------------------------------------------------------------------

/// Every declaration classified into a holder, stopping at the first one
/// with neither a name nor a ref.
pub open spec fn holders_of(ds: Seq<(Option<Seq<char>>, RawV)>) -> Result<Seq<HolderV>, ErrorV>
    decreases ds.len(),
{
    if ds.len() == 0 {
        Ok(Seq::empty())
    } else {
        match holders_of(ds.drop_last()) {
            Err(e) => Err(e),
            Ok(hs) => match holder_of(ds.last().0, ds.last().1) {
                Some(h) => Ok(hs.push(h)),
                None => Err(ErrorV::NoNameOrRef),
            },
        }
    }
}

/// A failed prefix fails the whole classification with the same error.
proof fn lemma_holders_of_err(ds: Seq<(Option<Seq<char>>, RawV)>, i: int)
    requires
        0 <= i <= ds.len(),
        holders_of(ds.subrange(0, i)) is Err,
    ensures
        holders_of(ds) == holders_of(ds.subrange(0, i)),
    decreases ds.len(),
{
    if i == ds.len() {
        assert(ds.subrange(0, i) =~= ds);
    } else {
        assert(ds.drop_last().subrange(0, i) =~= ds.subrange(0, i));
        lemma_holders_of_err(ds.drop_last(), i);
    }
}

/// Classifies every flattened declaration.
pub fn collect_holders(decls: &Vec<(Option<String>, RawValue)>) -> (r: Result<
    Vec<RunnerHolder>,
    Error,
>)
    ensures
        match r {
            Ok(hs) => holders_of(decls_view(decls@)) matches Ok(s) && s == holders_view(hs),
            Err(e) => holders_of(decls_view(decls@)) matches Err(ev) && ev == e@,
        },
{
    let ghost dv = decls_view(decls@);
    let mut out: Vec<RunnerHolder> = Vec::new();
    let mut i: usize = 0;
    proof {
        assert(dv.subrange(0, 0) =~= Seq::<(Option<Seq<char>>, RawV)>::empty());
        assert(holders_view(out) =~= Seq::<HolderV>::empty());
    }
    while i < decls.len()
        invariant
            i <= decls@.len(),
            dv == decls_view(decls@),
            dv.len() == decls@.len(),
            forall|j: int| 0 <= j < decls@.len() ==> dv[j] == (
                opt_str_view((#[trigger] decls@[j]).0),
                raw_view(decls@[j].1),
            ),
            holders_of(dv.subrange(0, i as int)) matches Ok(s) && s == holders_view(out),
        decreases decls@.len() - i,
    {
        let ghost pre = dv.subrange(0, i as int + 1);
        let ghost prev = holders_of(dv.subrange(0, i as int))->Ok_0;
        proof {
            assert(pre.drop_last() =~= dv.subrange(0, i as int));
            assert(pre.last() == dv[i as int]);
        }
        let group = match &decls[i].0 {
            Some(g) => Some(g.clone()),
            None => None,
        };
        let value = clone_raw(&decls[i].1);
        let made = RunnerHolder::new(group, value);
        match made {
            Ok(h) => {
                out.push(h);
                proof {
                    assert(holders_view(out) =~= prev.push(holders_view(out).last()));
                    assert(holders_of(pre) matches Ok(s) && s == holders_view(out));
                }
            }
            Err(e) => {
                proof {
                    lemma_holders_of_err(dv, i as int + 1);
                }
                return Err(e);
            }
        }
        i = i + 1;
    }
    proof {
        assert(dv.subrange(0, dv.len() as int) =~= dv);
    }
    Ok(out)
}

// ---------------------------------------------------------------------------
// Partitioning the resolved runners into the configuration
// ---------------------------------------------------------------------------

/// Appends a runner to its group's ordered list, creating the group at the
/// end when it is new.
pub open spec fn groups_add(
    gs: Seq<(Seq<char>, Seq<RunnerV>)>,
    g: Seq<char>,
    r: RunnerV,
) -> Seq<(Seq<char>, Seq<RunnerV>)> {
    match first_key_index(gs, g) {
        Some(i) => gs.update(i, (g, gs[i].1.push(r))),
        None => gs.push((g, seq![r])),
    }
}

/// Sets a solo runner under its name; a later declaration under the same
/// name replaces an earlier one.
pub open spec fn solos_add(
    ss: Seq<(Seq<char>, RunnerV)>,
    n: Seq<char>,
    r: RunnerV,
) -> Seq<(Seq<char>, RunnerV)> {
    match first_key_index(ss, n) {
        Some(i) => ss.update(i, (n, r)),
        None => ss.push((n, r)),
    }
}

/// Materializes every holder into a validated runner and partitions the
/// runners into the group map and the solo map, in declaration order,
/// stopping at the first failure.  A holder still unresolved here breaks an
/// internal invariant.
pub open spec fn build_config(hs: Seq<HolderV>) -> Result<ConfigV, ErrorV>
    decreases hs.len(),
{
    if hs.len() == 0 {
        Ok(ConfigV { groups: Seq::empty(), solos: Seq::empty() })
    } else {
        match build_config(hs.drop_last()) {
            Err(e) => Err(e),
            Ok(c) => {
                let h = hs.last();
                if h.kind is Refed {
                    Err(ErrorV::UnresolvedRef)
                } else {
                    match runner_of_tbl(h.table) {
                        Err(e) => Err(e),
                        Ok(r) => match h.group {
                            Some(g) => Ok(
                                ConfigV { groups: groups_add(c.groups, g, r), solos: c.solos },
                            ),
                            None => Ok(
                                ConfigV { groups: c.groups, solos: solos_add(c.solos, r.name, r) },
                            ),
                        },
                    }
                }
            }
        }
    }
}

/// A failed prefix fails the whole construction with the same error.
proof fn lemma_build_config_err(hs: Seq<HolderV>, i: int)
    requires
        0 <= i <= hs.len(),
        build_config(hs.subrange(0, i)) is Err,
    ensures
        build_config(hs) == build_config(hs.subrange(0, i)),
    decreases hs.len(),
{
    if i == hs.len() {
        assert(hs.subrange(0, i) =~= hs);
    } else {
        assert(hs.drop_last().subrange(0, i) =~= hs.subrange(0, i));
        lemma_build_config_err(hs.drop_last(), i);
    }
}

/// Materializes and partitions every resolved holder.
pub fn build_config_exec(holders: &Vec<RunnerHolder>) -> (r: Result<Config, Error>)
    ensures
        match r {
            Ok(c) => build_config(holders_view(*holders)) matches Ok(cv) && cv == c@,
            Err(e) => build_config(holders_view(*holders)) matches Err(ev) && ev == e@,
        },
{
    let ghost hv = holders_view(*holders);
    let mut grouped: Vec<(String, Vec<Runner>)> = Vec::new();
    let mut solos: Vec<(String, Runner)> = Vec::new();
    let mut i: usize = 0;
    proof {
        assert(hv.subrange(0, 0) =~= Seq::<HolderV>::empty());
        assert(groups_field_view(grouped) =~= Seq::<(Seq<char>, Seq<RunnerV>)>::empty());
        assert(solos_field_view(solos) =~= Seq::<(Seq<char>, RunnerV)>::empty());
    }
    while i < holders.len()
        invariant
            i <= hv.len(),
            hv == holders_view(*holders),
            hv.len() == holders@.len(),
            forall|j: int| 0 <= j < hv.len() ==> hv[j] == (#[trigger] holders@[j])@,
            build_config(hv.subrange(0, i as int)) matches Ok(cv) && cv.groups
                == groups_field_view(grouped) && cv.solos == solos_field_view(solos),
        decreases hv.len() - i,
    {
        let ghost pre = hv.subrange(0, i as int + 1);
        proof {
            assert(pre.drop_last() =~= hv.subrange(0, i as int));
            assert(pre.last() == hv[i as int]);
        }
        let is_refed = holders[i].is_refed();
        if is_refed {
            proof {
                lemma_build_config_err(hv, i as int + 1);
            }
            return Err(Error::UnresolvedRef);
        }
        let made = runner_from_tbl(&holders[i].table);
        let run = match made {
            Ok(run) => run,
            Err(e) => {
                proof {
                    lemma_build_config_err(hv, i as int + 1);
                }
                return Err(e);
            }
        };
        match &holders[i].group {
            Some(g) => {
                let mut gi: usize = 0;
                let mut found: bool = false;
                while gi < grouped.len() && !found
                    invariant
                        gi <= grouped@.len(),
                        groups_field_view(grouped).len() == grouped@.len(),
                        found ==> gi < grouped@.len() && groups_field_view(grouped)[gi as int].0
                            == g@,
                        forall|j: int| 0 <= j < gi ==> (#[trigger] groups_field_view(
                            grouped,
                        )[j]).0 != g@,
                    decreases grouped@.len() - gi + (if found { 0int } else { 1int }),
                {
                    if str_eq(grouped[gi].0.as_str(), g.as_str()) {
                        found = true;
                    } else {
                        gi = gi + 1;
                    }
                }
                let ghost gsv = groups_field_view(grouped);
                let ghost rv = run@;
                if found {
                    proof {
                        crate::config::lemma_first_key_at(gsv, g@, gi as int);
                    }
                    let ghost gpre = grouped@;
                    let mut entry = grouped.remove(gi);
                    let ghost entry_runners = runners_view(entry.1);
                    entry.1.push(run);
                    proof {
                        assert(runners_view(entry.1) =~= entry_runners.push(rv));
                    }
                    let ghost entry_final = entry;
                    grouped.insert(gi, entry);
                    proof {
                        assert(grouped@ =~= gpre.update(gi as int, entry_final));
                        let target = groups_add(gsv, g@, rv);
                        assert(entry_runners == gsv[gi as int].1);
                        assert forall|j: int| 0 <= j < grouped@.len() implies groups_field_view(
                            grouped,
                        )[j] == target[j] by {
                            if j != gi as int {
                                assert(grouped@[j] == gpre[j]);
                            } else {
                                assert(grouped@[j] == entry_final);
                            }
                        }
                        assert(groups_field_view(grouped) =~= target);
                    }
                } else {
                    proof {
                        crate::config::lemma_first_key_index(gsv, g@);
                        if first_key_index(gsv, g@) is Some {
                            let k = first_key_index(gsv, g@)->0;
                            assert(gsv[k].0 == g@);
                            assert(false);
                        }
                    }
                    let mut one: Vec<Runner> = Vec::new();
                    one.push(run);
                    let gkey = g.clone();
                    grouped.push((gkey, one));
                    proof {
                        assert(runners_view(grouped@.last().1) =~= seq![rv]);
                        assert(groups_field_view(grouped) =~= gsv.push((g@, seq![rv])));
                    }
                }
            }
            None => {
                let ghost ssv = solos_field_view(solos);
                let ghost rv = run@;
                let mut si: usize = 0;
                let mut found: bool = false;
                while si < solos.len() && !found
                    invariant
                        si <= solos@.len(),
                        ssv == solos_field_view(solos),
                        ssv.len() == solos@.len(),
                        found ==> si < solos@.len() && ssv[si as int].0 == run.name@,
                        forall|j: int| 0 <= j < si ==> (#[trigger] ssv[j]).0 != run.name@,
                    decreases solos@.len() - si + (if found { 0int } else { 1int }),
                {
                    if str_eq(solos[si].0.as_str(), run.name.as_str()) {
                        found = true;
                    } else {
                        si = si + 1;
                    }
                }
                if found {
                    proof {
                        crate::config::lemma_first_key_at(ssv, run.name@, si as int);
                    }
                    let nkey = run.name.clone();
                    solos[si] = (nkey, run);
                    proof {
                        let target = solos_add(ssv, rv.name, rv);
                        assert forall|j: int| 0 <= j < solos@.len() implies solos_field_view(
                            solos,
                        )[j] == target[j] by {}
                        assert(solos_field_view(solos) =~= target);
                    }
                } else {
                    proof {
                        crate::config::lemma_first_key_index(ssv, run.name@);
                        if first_key_index(ssv, run.name@) is Some {
                            let k = first_key_index(ssv, run.name@)->0;
                            assert(ssv[k].0 == run.name@);
                            assert(false);
                        }
                    }
                    let nkey = run.name.clone();
                    solos.push((nkey, run));
                    proof {
                        assert(solos_field_view(solos) =~= ssv.push((rv.name, rv)));
                    }
                }
            }
        }
        i = i + 1;
    }
    proof {
        assert(hv.subrange(0, hv.len() as int) =~= hv);
    }
    Ok(Config { grouped_runners: grouped, solo_runners: solos })
}

// ---------------------------------------------------------------------------
// Laws of merging and resolution
// ---------------------------------------------------------------------------

/// What the merged table's `args` entry holds: the override's literal
/// `args` replaces the base's first; the override's `args_add` array then
/// appends to whatever `args` holds, creating it when absent and leaving a
/// non-array value untouched.
pub open spec fn merged_args(
    base: Seq<(Seq<char>, RawV)>,
    ov: Seq<(Seq<char>, RawV)>,
) -> Option<RawV> {
    let pre = if tbl_get(ov, "args"@) is Some {
        tbl_get(ov, "args"@)
    } else {
        tbl_get(base, "args"@)
    };
    match tbl_get(ov, "args_add"@) {
        Some(RawV::Arr(aa)) => match pre {
            None => Some(RawV::Arr(aa)),
            Some(RawV::Arr(b)) => Some(RawV::Arr(b + aa)),
            Some(other) => Some(other),
        },
        _ => pre,
    }
}

/// The overlay pass answers every key from the override when the override
/// carries it (and it is not `ref` or `args_add`), and from the base
/// otherwise.
proof fn lemma_merge_overlay_get(
    base: Seq<(Seq<char>, RawV)>,
    ov: Seq<(Seq<char>, RawV)>,
    k: Seq<char>,
)
    ensures
        tbl_get(merge_overlay(base, ov), k) == if k != "ref"@ && k != "args_add"@ && tbl_get(
            ov,
            k,
        ) is Some {
            tbl_get(ov, k)
        } else {
            tbl_get(base, k)
        },
    decreases ov.len(),
{
    if ov.len() > 0 {
        lemma_merge_overlay_get(base, ov.drop_first(), k);
        let rest = merge_overlay(base, ov.drop_first());
        if ov[0].0 == "ref"@ || ov[0].0 == "args_add"@ {
        } else {
            lemma_tbl_set_get(rest, ov[0].0, ov[0].1, k);
        }
    }
}

/// Law: a resolved reference answers every field lookup from the override
/// when the override explicitly carries the field, and from the base
/// otherwise; the override's `ref` key is an instruction and is never
/// copied; `args` follows the literal-`args`-then-`args_add` rule.
pub proof fn lemma_merge_fields(
    base: Seq<(Seq<char>, RawV)>,
    ov: Seq<(Seq<char>, RawV)>,
    k: Seq<char>,
)
    ensures
        k != "ref"@ && k != "args"@ && k != "args_add"@ ==> tbl_get(merge_tables(base, ov), k) == (
        if tbl_get(ov, k) is Some {
            tbl_get(ov, k)
        } else {
            tbl_get(base, k)
        }),
        tbl_get(merge_tables(base, ov), "ref"@) == tbl_get(base, "ref"@),
        tbl_get(merge_tables(base, ov), "args_add"@) == tbl_get(base, "args_add"@),
        tbl_get(merge_tables(base, ov), "args"@) == merged_args(base, ov),
{
    let over = merge_overlay(base, ov);
    lemma_merge_overlay_get(base, ov, k);
    lemma_merge_overlay_get(base, ov, "ref"@);
    lemma_merge_overlay_get(base, ov, "args_add"@);
    lemma_merge_overlay_get(base, ov, "args"@);
    match tbl_get(ov, "args_add"@) {
        Some(RawV::Arr(aa)) => {
            match tbl_get(over, "args"@) {
                None => {
                    lemma_tbl_set_get(over, "args"@, RawV::Arr(aa), k);
                    lemma_tbl_set_get(over, "args"@, RawV::Arr(aa), "ref"@);
                    lemma_tbl_set_get(over, "args"@, RawV::Arr(aa), "args_add"@);
                    lemma_tbl_set_get(over, "args"@, RawV::Arr(aa), "args"@);
                }
                Some(RawV::Arr(b)) => {
                    lemma_tbl_set_get(over, "args"@, RawV::Arr(b + aa), k);
                    lemma_tbl_set_get(over, "args"@, RawV::Arr(b + aa), "ref"@);
                    lemma_tbl_set_get(over, "args"@, RawV::Arr(b + aa), "args_add"@);
                    lemma_tbl_set_get(over, "args"@, RawV::Arr(b + aa), "args"@);
                }
                Some(_) => {}
            }
        }
        _ => {}
    }
    proof_strlit_distinct();
}

/// The four special key literals are pairwise distinct.
proof fn proof_strlit_distinct()
    ensures
        "ref"@ != "args"@,
        "ref"@ != "args_add"@,
        "args"@ != "args_add"@,
{
    reveal_strlit("ref");
    reveal_strlit("args");
    reveal_strlit("args_add");
    assert("ref"@.len() != "args_add"@.len());
    assert("ref"@.len() != "args"@.len());
    assert("args"@.len() != "args_add"@.len());
}

/// Law: the runner fields are plain keys, so the merged table answers each
/// of them from the override when the override carries it, and from the
/// base otherwise — the resolved runner's fields equal the base runner's
/// fields except those explicitly present on the `ref` declaration.
pub proof fn lemma_merge_plain_field(
    base: Seq<(Seq<char>, RawV)>,
    ov: Seq<(Seq<char>, RawV)>,
    k: Seq<char>,
)
    requires
        k == "name"@ || k == "cmd"@ || k == "working_dir"@ || k == "concurrent"@ || k
            == "end_all_on_exit"@ || k == "when"@,
    ensures
        tbl_get(merge_tables(base, ov), k) == if tbl_get(ov, k) is Some {
            tbl_get(ov, k)
        } else {
            tbl_get(base, k)
        },
{
    reveal_strlit("name");
    reveal_strlit("cmd");
    reveal_strlit("working_dir");
    reveal_strlit("concurrent");
    reveal_strlit("end_all_on_exit");
    reveal_strlit("when");
    reveal_strlit("ref");
    reveal_strlit("args");
    reveal_strlit("args_add");
    if k == "name"@ {
        assert("name"@[0] != "args"@[0]);
        assert("name"@.len() != "ref"@.len() && "name"@.len() != "args_add"@.len());
    } else if k == "cmd"@ {
        assert("cmd"@[0] != "ref"@[0]);
        assert("cmd"@.len() != "args"@.len() && "cmd"@.len() != "args_add"@.len());
    } else if k == "when"@ {
        assert("when"@[0] != "args"@[0]);
        assert("when"@.len() != "ref"@.len() && "when"@.len() != "args_add"@.len());
    } else {
        assert(k.len() != "ref"@.len() && k.len() != "args"@.len() && k.len()
            != "args_add"@.len());
    }
    assert(k != "ref"@ && k != "args"@ && k != "args_add"@);
    lemma_merge_fields(base, ov, k);
}

/// String extraction distributes over array concatenation.
proof fn lemma_str_items_concat(a: Seq<RawV>, b: Seq<RawV>)
    ensures
        str_items(a + b) == match (str_items(a), str_items(b)) {
            (Some(x), Some(y)) => Some(x + y),
            _ => None::<Seq<Seq<char>>>,
        },
    decreases b.len(),
{
    if b.len() == 0 {
        assert(a + b =~= a);
        match (str_items(a), str_items(b)) {
            (Some(x), Some(y)) => {
                assert(x + y =~= x);
            }
            _ => {}
        }
    } else {
        assert((a + b).drop_last() =~= a + b.drop_last());
        assert((a + b).last() == b.last());
        lemma_str_items_concat(a, b.drop_last());
        match (str_items(a), str_items(b)) {
            (Some(x), Some(y)) => {
                assert(str_items(b.drop_last()) is Some);
                let yd = str_items(b.drop_last())->0;
                assert(y == yd.push(str_items(b)->0.last()));
                assert(x + y =~= (x + yd).push(y.last()));
            }
            _ => {}
        }
    }
}

/// Law: for any valid configuration, the runner a resolved `ref` yields
/// keeps every field of the base runner that the `ref` declaration does
/// not explicitly carry, and its `args` equal the base's `args` with the
/// `ref`'s `args_add` strings appended when no literal `args` is given.
pub proof fn lemma_ref_runner_fields(base: Seq<(Seq<char>, RawV)>, ov: Seq<(Seq<char>, RawV)>)
    requires
        runner_of_tbl(base) is Ok,
        runner_of_tbl(merge_tables(base, ov)) is Ok,
    ensures
        ({
            let m = runner_of_tbl(merge_tables(base, ov))->Ok_0;
            let b = runner_of_tbl(base)->Ok_0;
            &&& (tbl_get(ov, "name"@) is None ==> m.name == b.name)
            &&& (tbl_get(ov, "cmd"@) is None ==> m.cmd == b.cmd)
            &&& (tbl_get(ov, "working_dir"@) is None ==> m.working_dir == b.working_dir)
            &&& (tbl_get(ov, "concurrent"@) is None ==> m.concurrent == b.concurrent)
            &&& (tbl_get(ov, "end_all_on_exit"@) is None ==> m.end_all_on_exit
                == b.end_all_on_exit)
            &&& (tbl_get(ov, "when"@) is None ==> m.when_no_file_at == b.when_no_file_at)
            &&& (tbl_get(ov, "args"@) is None && tbl_get(ov, "args_add"@) is None ==> m.args
                == b.args)
            &&& match tbl_get(ov, "args_add"@) {
                Some(RawV::Arr(aa)) => tbl_get(ov, "args"@) is None && str_items(aa) is Some
                    ==> m.args == b.args + str_items(aa)->0,
                _ => true,
            }
        }),
{
    lemma_merge_plain_field(base, ov, "name"@);
    lemma_merge_plain_field(base, ov, "cmd"@);
    lemma_merge_plain_field(base, ov, "working_dir"@);
    lemma_merge_plain_field(base, ov, "concurrent"@);
    lemma_merge_plain_field(base, ov, "end_all_on_exit"@);
    lemma_merge_plain_field(base, ov, "when"@);
    lemma_merge_fields(base, ov, "args"@);
    let merged = merge_tables(base, ov);
    if tbl_get(ov, "args"@) is None {
        match tbl_get(ov, "args_add"@) {
            Some(RawV::Arr(aa)) => {
                if str_items(aa) is Some {
                    match tbl_get(base, "args"@) {
                        None => {
                            assert(tbl_get(merged, "args"@) == Some(RawV::Arr(aa)));
                            assert(runner_of_tbl(base)->Ok_0.args =~= Seq::<Seq<char>>::empty());
                            assert(runner_of_tbl(base)->Ok_0.args + str_items(aa)->0 =~= str_items(
                                aa,
                            )->0);
                        }
                        Some(RawV::Arr(barr)) => {
                            assert(tbl_get(merged, "args"@) == Some(RawV::Arr(barr + aa)));
                            lemma_str_items_concat(barr, aa);
                        }
                        Some(_) => {
                            assert(opt_args(base) is Err);
                        }
                    }
                }
            }
            _ => {}
        }
    }
}

/// Law: resolution leaves no declaration classified as a ref — every
/// holder that survives it is named, or the resolution has failed.
pub proof fn lemma_resolution_leaves_no_refs(hs: Seq<HolderV>, n: int)
    requires
        0 <= n <= hs.len(),
        resolve_upto(hs, n) is Ok,
    ensures
        forall|i: int| 0 <= i < resolve_upto(hs, n)->Ok_0.len()
            ==> (#[trigger] resolve_upto(hs, n)->Ok_0[i]).kind is Named,
    decreases n,
{
    if n > 0 {
        lemma_resolution_leaves_no_refs(hs, n - 1);
        let prev = resolve_upto(hs, n - 1)->Ok_0;
        let cur = resolve_upto(hs, n)->Ok_0;
        assert(cur == prev.push(resolve_holder(hs, hs[n - 1])->Ok_0));
        assert forall|i: int| 0 <= i < cur.len() implies (#[trigger] cur[i]).kind is Named by {
            if i < prev.len() {
                assert(cur[i] == prev[i]);
            } else {
                assert(cur[i] == resolve_holder(hs, hs[n - 1])->Ok_0);
            }
        }
    }
}

/// Law: a `ref` declaration that resolves successfully yields exactly the
/// merge of its own table over its named target's table, in its own group:
/// together with `lemma_merge_fields`, the resolved runner's fields equal
/// the base's fields except those the `ref` explicitly carries, and its
/// `args` follow the literal-`args`-then-`args_add` rule.
pub proof fn lemma_resolved_ref_is_merge(hs: Seq<HolderV>, h: HolderV)
    requires
        h.kind is Refed,
        resolve_holder(hs, h) is Ok,
    ensures
        lookup_named(hs, h.kind->Refed_0) is Some,
        ({
            let b = hs[lookup_named(hs, h.kind->Refed_0)->0];
            let r = resolve_holder(hs, h)->Ok_0;
            r.table == merge_tables(b.table, h.table) && r.group == h.group && b.kind is Named
        }),
{
    lemma_lookup_named(hs, h.kind->Refed_0);
}

/// Law: what the lookup finds is always a named declaration, so a `ref` is
/// never resolved through another `ref`.
pub proof fn lemma_ref_targets_are_named(hs: Seq<HolderV>, key: Seq<char>)
    ensures
        lookup_named(hs, key) matches Some(i) ==> 0 <= i < hs.len() && hs[i].kind is Named,
{
    lemma_lookup_named(hs, key);
}

/// Law: a `ref` whose target is the key of no named declaration — a
/// nonexistent key, or the key a `ref` declaration would occupy — fails the
/// whole resolution; it never yields a partial runner set.  When every
/// earlier declaration resolves, the error is precisely the reference
/// error naming the target.
pub proof fn lemma_missing_target_fails(hs: Seq<HolderV>, i: int)
    requires
        0 <= i < hs.len(),
        hs[i].kind is Refed,
        lookup_named(hs, hs[i].kind->Refed_0) is None,
    ensures
        resolve_all(hs) is Err,
        resolve_upto(hs, i) is Ok ==> resolve_all(hs) == Err::<Seq<HolderV>, ErrorV>(
            ErrorV::RefNotFound(hs[i].kind->Refed_0),
        ),
{
    assert(resolve_holder(hs, hs[i]) == Err::<HolderV, ErrorV>(
        ErrorV::RefNotFound(hs[i].kind->Refed_0),
    ));
    assert(resolve_upto(hs, i + 1) is Err);
    lemma_resolve_upto_err(hs, i + 1, hs.len() as int);
}

// ---------------------------------------------------------------------------
// The whole pipeline
// ---------------------------------------------------------------------------

/// The resolved configuration a document table denotes: flatten, classify,
/// resolve every ref, materialize and partition.
pub open spec fn resolve_doc(root: Seq<(Seq<char>, RawV)>) -> Result<ConfigV, ErrorV> {
    match holders_of(flatten_doc(root)) {
        Err(e) => Err(e),
        Ok(hs) => match resolve_all(hs) {
            Err(e) => Err(e),
            Ok(rs) => build_config(rs),
        },
    }
}

/// Law: a document holding a `ref` whose target is the key of no named
/// declaration never resolves to a configuration — resolution fails
/// outright, it does not return a partial runner set.
pub proof fn lemma_missing_target_fails_doc(root: Seq<(Seq<char>, RawV)>, i: int)
    requires
        holders_of(flatten_doc(root)) matches Ok(hs) && 0 <= i < hs.len() && hs[i].kind is Refed
            && lookup_named(hs, hs[i].kind->Refed_0) is None,
    ensures
        resolve_doc(root) is Err,
{
    let hs = holders_of(flatten_doc(root))->Ok_0;
    lemma_missing_target_fails(hs, i);
}

/// Parses one configuration document and resolves it into a concrete,
/// immutable runner set.  Fails fast: a parse, schema or reference error
/// aborts the whole invocation before any process starts.
pub fn parse_awesome_toml(toml_str: &str) -> (r: Result<Config, Error>)
    ensures
        match toml_doc_of(toml_str@) {
            None => r matches Err(e) && e@ is ConfigParse,
            Some(d) => d matches RawV::Tbl(root) ==> match resolve_doc(root) {
                Ok(cv) => r matches Ok(c) && c@ == cv,
                Err(ev) => r matches Err(e) && e@ == ev,
            },
        },
{
    let parsed = crate::parse::parse_toml_doc(toml_str);
    match parsed {
        Err(m) => Err(Error::ConfigParse(m)),
        Ok(root) => {
            let decls = flatten_doc_exec(&root);
            let holders = match collect_holders(&decls) {
                Ok(h) => h,
                Err(e) => {
                    return Err(e);
                }
            };
            let resolved = match resolve_refs(&holders) {
                Ok(h) => h,
                Err(e) => {
                    return Err(e);
                }
            };
            build_config_exec(&resolved)
        }
    }
}

/// Pushes an exact copy of every element of `src` onto `dst`.
fn append_cloned(dst: &mut Vec<RawValue>, src: &Vec<RawValue>)
    ensures
        arr_view(final(dst)@) == arr_view(old(dst)@) + arr_view(src@),
{
    proof {
        lemma_arr_view(src@);
        lemma_arr_view(dst@);
    }
    let mut i: usize = 0;
    while i < src.len()
        invariant
            i <= src@.len(),
            dst@.len() == old(dst)@.len() + i,
            forall|j: int| 0 <= j < old(dst)@.len() ==> raw_view(#[trigger] dst@[j])
                == raw_view(old(dst)@[j]),
            forall|j: int| 0 <= j < i ==> raw_view(#[trigger] dst@[old(dst)@.len() + j])
                == raw_view(src@[j]),
        decreases src@.len() - i,
    {
        let c = clone_raw(&src[i]);
        dst.push(c);
        i = i + 1;
    }
    proof {
        lemma_arr_view(dst@);
        lemma_arr_view(old(dst)@);
        lemma_arr_view(src@);
        let target = arr_view(old(dst)@) + arr_view(src@);
        assert forall|j: int| 0 <= j < dst@.len() implies arr_view(dst@)[j] == target[j] by {
            if j < old(dst)@.len() {
                assert(raw_view(dst@[j]) == raw_view(old(dst)@[j]));
            } else {
                assert(raw_view(dst@[old(dst)@.len() + (j - old(dst)@.len())])
                    == raw_view(src@[j - old(dst)@.len()]));
            }
        }
        assert(arr_view(dst@) =~= target);
    }
}

} // verus!
