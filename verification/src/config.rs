//! The resolved configuration: groups of runners and solo runners, plus the
//! selector that maps a query string to the runners it addresses.

use vstd::prelude::*;

use crate::runner::{Runner, RunnerV};

verus! {

/// The immutable result of resolution: every group's runners in declaration
/// order, and every solo runner under its name.
#[derive(Debug)]
pub struct Config {
    /// Runners by group name (a group is `[[runners.group_name]]`).
    pub grouped_runners: Vec<(String, Vec<Runner>)>,
    /// Solo runners by name (`[[runner]]` with `name = runner_name`).
    pub solo_runners: Vec<(String, Runner)>,
}

/// The mathematical shape of a `Config`.
#[verifier::ext_equal]
pub struct ConfigV {
    pub groups: Seq<(Seq<char>, Seq<RunnerV>)>,
    pub solos: Seq<(Seq<char>, RunnerV)>,
}

/// The views of a runner vector.
pub open spec fn runners_view(v: Vec<Runner>) -> Seq<RunnerV> {
    Seq::new(v@.len(), |i: int| v@[i]@)
}

/// The views of the group list.
pub open spec fn groups_field_view(v: Vec<(String, Vec<Runner>)>) -> Seq<
    (Seq<char>, Seq<RunnerV>),
> {
    Seq::new(v@.len(), |i: int| (v@[i].0@, runners_view(v@[i].1)))
}

/// The views of the solo list.
pub open spec fn solos_field_view(v: Vec<(String, Runner)>) -> Seq<(Seq<char>, RunnerV)> {
    Seq::new(v@.len(), |i: int| (v@[i].0@, v@[i].1@))
}

impl View for Config {
    type V = ConfigV;

    open spec fn view(&self) -> ConfigV {
        ConfigV {
            groups: groups_field_view(self.grouped_runners),
            solos: solos_field_view(self.solo_runners),
        }
    }
}

/// The first index whose key is `k` in an association sequence.
pub open spec fn first_key_index<T>(s: Seq<(Seq<char>, T)>, k: Seq<char>) -> Option<int>
    decreases s.len(),
{
    if s.len() == 0 {
        None
    } else if s[0].0 == k {
        Some(0int)
    } else {
        match first_key_index(s.drop_first(), k) {
            Some(i) => Some(i + 1),
            None => None,
        }
    }
}

/// `first_key_index` finds the first match, and only a match.
pub proof fn lemma_first_key_index<T>(s: Seq<(Seq<char>, T)>, k: Seq<char>)
    ensures
        match first_key_index(s, k) {
            Some(i) => 0 <= i < s.len() && s[i].0 == k && (forall|j: int|
                0 <= j < i ==> (#[trigger] s[j]).0 != k),
            None => forall|j: int| 0 <= j < s.len() ==> (#[trigger] s[j]).0 != k,
        },
    decreases s.len(),
{
    if s.len() > 0 && s[0].0 != k {
        lemma_first_key_index(s.drop_first(), k);
        match first_key_index(s.drop_first(), k) {
            Some(i) => {
                assert(s.drop_first()[i] == s[i + 1]);
                assert forall|j: int| 0 <= j < i + 1 implies (#[trigger] s[j]).0 != k by {
                    if j > 0 {
                        assert(s[j] == s.drop_first()[j - 1]);
                    }
                }
            }
            None => {
                assert forall|j: int| 0 <= j < s.len() implies (#[trigger] s[j]).0 != k by {
                    if j > 0 {
                        assert(s[j] == s.drop_first()[j - 1]);
                    }
                }
            }
        }
    }
}

/// A first key match at `i` pins `first_key_index` to it.
pub proof fn lemma_first_key_at<T>(s: Seq<(Seq<char>, T)>, k: Seq<char>, i: int)
    requires
        0 <= i < s.len(),
        s[i].0 == k,
        forall|j: int| 0 <= j < i ==> (#[trigger] s[j]).0 != k,
    ensures
        first_key_index(s, k) == Some(i),
    decreases s.len(),
{
    if i > 0 {
        assert forall|j: int| 0 <= j < i - 1 implies (#[trigger] s.drop_first()[j]).0 != k by {
            assert(s.drop_first()[j] == s[j + 1]);
        }
        assert(s.drop_first()[i - 1] == s[i]);
        lemma_first_key_at(s.drop_first(), k, i - 1);
    }
}

/// The runner list of the group named `name`.
pub open spec fn spec_group_lookup(c: ConfigV, name: Seq<char>) -> Option<Seq<RunnerV>> {
    match first_key_index(c.groups, name) {
        Some(i) => Some(c.groups[i].1),
        None => None,
    }
}

/// The solo runner named `name`.
pub open spec fn spec_solo_lookup(c: ConfigV, name: Seq<char>) -> Option<RunnerV> {
    match first_key_index(c.solos, name) {
        Some(i) => Some(c.solos[i].1),
        None => None,
    }
}

/// The first runner in `rs` whose name is `name`.
pub open spec fn spec_first_named(rs: Seq<RunnerV>, name: Seq<char>) -> Option<RunnerV>
    decreases rs.len(),
{
    if rs.len() == 0 {
        None
    } else if rs[0].name == name {
        Some(rs[0])
    } else {
        spec_first_named(rs.drop_first(), name)
    }
}

/// `spec_first_named` finds the first match, and only a match.
pub proof fn lemma_spec_first_named(rs: Seq<RunnerV>, name: Seq<char>)
    ensures
        match spec_first_named(rs, name) {
            Some(r) => exists|i: int|
                0 <= i < rs.len() && rs[i] == r && (#[trigger] rs[i]).name == name,
            None => forall|i: int| 0 <= i < rs.len() ==> (#[trigger] rs[i]).name != name,
        },
    decreases rs.len(),
{
    if rs.len() > 0 && rs[0].name != name {
        lemma_spec_first_named(rs.drop_first(), name);
        match spec_first_named(rs.drop_first(), name) {
            Some(r) => {
                let i = choose|i: int|
                    0 <= i < rs.drop_first().len() && rs.drop_first()[i] == r
                        && (#[trigger] rs.drop_first()[i]).name == name;
                assert(rs[i + 1] == rs.drop_first()[i]);
            }
            None => {
                assert forall|i: int| 0 <= i < rs.len() implies (#[trigger] rs[i]).name
                    != name by {
                    if i > 0 {
                        assert(rs[i] == rs.drop_first()[i - 1]);
                    }
                }
            }
        }
    }
}

impl Runner {
    /// An exact copy of this runner.
    pub fn clone_runner(&self) -> (r: Runner)
        ensures
            r@ == self@,
    {
        let working_dir = match &self.working_dir {
            Some(d) => Some(d.clone()),
            None => None,
        };
        let when_no_file_at = match &self.when_no_file_at {
            Some(p) => Some(p.clone()),
            None => None,
        };
        let mut args: Vec<String> = Vec::new();
        let mut i: usize = 0;
        while i < self.args.len()
            invariant
                i <= self.args@.len(),
                args@.len() == i,
                forall|j: int| 0 <= j < i ==> args@[j]@ == self.args@[j]@,
            decreases self.args@.len() - i,
        {
            args.push(self.args[i].clone());
            i = i + 1;
        }
        proof {
            assert(args.deep_view() =~= self.args.deep_view());
        }
        Runner {
            name: self.name.clone(),
            working_dir,
            cmd: self.cmd.clone(),
            args,
            concurrent: self.concurrent,
            end_all_on_exit: self.end_all_on_exit,
            when_no_file_at,
        }
    }
}

/// An exact copy of a runner vector.
pub fn clone_runners(v: &Vec<Runner>) -> (r: Vec<Runner>)
    ensures
        runners_view(r) == runners_view(*v),
{
    let mut out: Vec<Runner> = Vec::new();
    let mut i: usize = 0;
    while i < v.len()
        invariant
            i <= v@.len(),
            out@.len() == i,
            forall|j: int| 0 <= j < i ==> out@[j]@ == v@[j]@,
        decreases v@.len() - i,
    {
        let c = v[i].clone_runner();
        out.push(c);
        i = i + 1;
    }
    proof {
        assert(runners_view(out) =~= runners_view(*v));
    }
    out
}

impl Config {
    /// The runners of the group named `group_name`, in declaration order.
    pub fn get_runners(&self, group_name: &str) -> (r: Option<Vec<Runner>>)
        ensures
            match r {
                Some(v) => spec_group_lookup(self@, group_name@) == Some(runners_view(v)),
                None => spec_group_lookup(self@, group_name@) is None,
            },
    {
        proof {
            lemma_first_key_index(self@.groups, group_name@);
        }
        let mut i: usize = 0;
        while i < self.grouped_runners.len()
            invariant
                i <= self.grouped_runners@.len(),
                forall|j: int| 0 <= j < i ==> (#[trigger] self@.groups[j]).0 != group_name@,
            decreases self.grouped_runners@.len() - i,
        {
            if crate::raw::str_eq(self.grouped_runners[i].0.as_str(), group_name) {
                proof {
                    lemma_first_key_at(self@.groups, group_name@, i as int);
                }
                return Some(clone_runners(&self.grouped_runners[i].1));
            }
            i = i + 1;
        }
        proof {
            lemma_first_key_index(self@.groups, group_name@);
        }
        None
    }

    /// The runner named `runner_name` within the group named `group_name`,
    /// taking the first match in declaration order.
    pub fn get_grouped_runner(&self, group_name: &str, runner_name: &str) -> (r: Option<Runner>)
        ensures
            match spec_group_lookup(self@, group_name@) {
                None => r is None,
                Some(rs) => match spec_first_named(rs, runner_name@) {
                    Some(rv) => r matches Some(x) && x@ == rv,
                    None => r is None,
                },
            },
    {
        let group = self.get_runners(group_name);
        match group {
            None => None,
            Some(runners) => {
                let mut i: usize = 0;
                while i < runners.len()
                    invariant
                        i <= runners@.len(),
                        spec_group_lookup(self@, group_name@) == Some(runners_view(runners)),
                        forall|j: int| 0 <= j < i ==> (#[trigger] runners_view(runners)[j]).name
                            != runner_name@,
                    decreases runners@.len() - i,
                {
                    if crate::raw::str_eq(runners[i].name.as_str(), runner_name) {
                        proof {
                            lemma_first_named_at(runners_view(runners), runner_name@, i as int);
                        }
                        return Some(runners[i].clone_runner());
                    }
                    i = i + 1;
                }
                proof {
                    lemma_spec_first_named(runners_view(runners), runner_name@);
                    if spec_first_named(runners_view(runners), runner_name@) is Some {
                        let k = choose|k: int|
                            0 <= k < runners_view(runners).len() && (#[trigger] runners_view(
                                runners,
                            )[k]).name == runner_name@;
                        assert(false);
                    }
                }
                None
            }
        }
    }

    /// The solo runner named `name`.
    pub fn get_solo_runner(&self, name: &str) -> (r: Option<Runner>)
        ensures
            match spec_solo_lookup(self@, name@) {
                Some(rv) => r matches Some(x) && x@ == rv,
                None => r is None,
            },
    {
        proof {
            lemma_first_key_index(self@.solos, name@);
        }
        let mut i: usize = 0;
        while i < self.solo_runners.len()
            invariant
                i <= self.solo_runners@.len(),
                forall|j: int| 0 <= j < i ==> (#[trigger] self@.solos[j]).0 != name@,
            decreases self.solo_runners@.len() - i,
        {
            if crate::raw::str_eq(self.solo_runners[i].0.as_str(), name) {
                proof {
                    lemma_first_key_at(self@.solos, name@, i as int);
                }
                return Some(self.solo_runners[i].1.clone_runner());
            }
            i = i + 1;
        }
        proof {
            lemma_first_key_index(self@.solos, name@);
        }
        None
    }
}

// ---------------------------------------------------------------------------
// The selector
// ---------------------------------------------------------------------------

/// How many times `c` occurs in `s`.
pub open spec fn count_char(s: Seq<char>, c: char) -> nat
    decreases s.len(),
{
    if s.len() == 0 {
        0
    } else {
        count_char(s.drop_last(), c) + if s.last() == c {
            1nat
        } else {
            0nat
        }
    }
}

/// With exactly one occurrence, any two occurrence positions coincide.
proof fn lemma_count_char_unique(s: Seq<char>, c: char, i: int, j: int)
    requires
        count_char(s, c) == 1,
        0 <= i < s.len(),
        0 <= j < s.len(),
        s[i] == c,
        s[j] == c,
    ensures
        i == j,
    decreases s.len(),
{
    if i != j {
        lemma_count_char_lower(s, c, i, j);
    }
}

/// Two distinct occurrences force a count of at least two.
proof fn lemma_count_char_lower(s: Seq<char>, c: char, i: int, j: int)
    requires
        0 <= i < s.len(),
        0 <= j < s.len(),
        i != j,
        s[i] == c,
        s[j] == c,
    ensures
        count_char(s, c) >= 2,
    decreases s.len(),
{
    let hi = if i > j {
        i
    } else {
        j
    };
    let lo = if i > j {
        j
    } else {
        i
    };
    if hi == s.len() - 1 {
        lemma_count_char_one(s.drop_last(), c, lo);
    } else {
        assert(s.drop_last()[lo] == s[lo]);
        assert(s.drop_last()[hi] == s[hi]);
        lemma_count_char_lower(s.drop_last(), c, lo, hi);
    }
}

/// One occurrence forces a count of at least one.
proof fn lemma_count_char_one(s: Seq<char>, c: char, i: int)
    requires
        0 <= i < s.len(),
        s[i] == c,
    ensures
        count_char(s, c) >= 1,
    decreases s.len(),
{
    if i < s.len() - 1 {
        assert(s.drop_last()[i] == s[i]);
        lemma_count_char_one(s.drop_last(), c, i);
    }
}

/// The runners a query addresses.  A query with exactly one separator is a
/// `group.name` pair: the named runner of that group, or nothing.  Any
/// other query names a whole group first, then a solo runner; a miss on
/// both selects nothing (and is no error).
pub open spec fn spec_select(c: ConfigV, q: Seq<char>) -> Seq<RunnerV> {
    if count_char(q, '.') == 1 {
        let d = choose|d: int| 0 <= d < q.len() && q[d] == '.';
        let a = q.subrange(0, d);
        let b = q.subrange(d + 1, q.len() as int);
        match spec_group_lookup(c, a) {
            None => Seq::empty(),
            Some(rs) => match spec_first_named(rs, b) {
                Some(r) => seq![r],
                None => Seq::empty(),
            },
        }
    } else {
        match spec_group_lookup(c, q) {
            Some(rs) => rs,
            None => match spec_solo_lookup(c, q) {
                Some(r) => seq![r],
                None => Seq::empty(),
            },
        }
    }
}

impl Config {
    /// Maps a query to the runners it addresses; an empty result is a miss,
    /// not an error.
    pub fn select(&self, query: &str) -> (r: Vec<Runner>)
        ensures
            runners_view(r) == spec_select(self@, query@),
    {
        let len = query.unicode_len();
        let mut dots: usize = 0;
        let mut first: usize = 0;
        let mut i: usize = 0;
        proof {
            assert(query@.subrange(0, 0) =~= Seq::<char>::empty());
        }
        while i < len
            invariant
                len == query@.len(),
                i <= len,
                dots <= i,
                dots == count_char(query@.subrange(0, i as int), '.'),
                dots > 0 ==> first < i && query@[first as int] == '.',
                dots == 0 ==> forall|j: int| 0 <= j < i ==> query@[j] != '.',
            decreases len - i,
        {
            let ghost pre = query@.subrange(0, i as int + 1);
            proof {
                assert(pre.drop_last() =~= query@.subrange(0, i as int));
                assert(pre.last() == query@[i as int]);
            }
            let ch = query.get_char(i);
            if ch == '.' {
                if dots == 0 {
                    first = i;
                }
                dots = dots + 1;
            }
            i = i + 1;
        }
        proof {
            assert(query@.subrange(0, len as int) =~= query@);
        }
        if dots == 1 {
            let a = query.substring_char(0, first);
            let b = query.substring_char(first + 1, len);
            proof {
                let d = choose|d: int| 0 <= d < query@.len() && query@[d] == '.';
                lemma_count_char_unique(query@, '.', d, first as int);
            }
            let found = self.get_grouped_runner(a, b);
            match found {
                Some(rr) => {
                    let mut out: Vec<Runner> = Vec::new();
                    out.push(rr);
                    proof {
                        assert(runners_view(out) =~= spec_select(self@, query@));
                    }
                    out
                }
                None => {
                    let out: Vec<Runner> = Vec::new();
                    proof {
                        assert(runners_view(out) =~= spec_select(self@, query@));
                    }
                    out
                }
            }
        } else {
            let found = self.get_runners(query);
            match found {
                Some(rs) => {
                    proof {
                        assert(runners_view(rs) =~= spec_select(self@, query@));
                    }
                    rs
                }
                None => {
                    let solo = self.get_solo_runner(query);
                    match solo {
                        Some(rr) => {
                            let mut out: Vec<Runner> = Vec::new();
                            out.push(rr);
                            proof {
                                assert(runners_view(out) =~= spec_select(self@, query@));
                            }
                            out
                        }
                        None => {
                            let out: Vec<Runner> = Vec::new();
                            proof {
                                assert(runners_view(out) =~= spec_select(self@, query@));
                            }
                            out
                        }
                    }
                }
            }
        }
    }
}

/// A first name match at `i` pins `spec_first_named` to it.
proof fn lemma_first_named_at(rs: Seq<RunnerV>, name: Seq<char>, i: int)
    requires
        0 <= i < rs.len(),
        rs[i].name == name,
        forall|j: int| 0 <= j < i ==> (#[trigger] rs[j]).name != name,
    ensures
        spec_first_named(rs, name) == Some(rs[i]),
    decreases rs.len(),
{
    if i > 0 {
        assert forall|j: int| 0 <= j < i - 1 implies (#[trigger] rs.drop_first()[j]).name
            != name by {
            assert(rs.drop_first()[j] == rs[j + 1]);
        }
        assert(rs.drop_first()[i - 1] == rs[i]);
        lemma_first_named_at(rs.drop_first(), name, i - 1);
    }
}

} // verus!
