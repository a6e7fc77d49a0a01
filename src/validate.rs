use vstd::prelude::*;
use crate::graph::{dependency_closure, Complete, Graph, GraphError, NodeModel};
use crate::kv::{kv_view, lookup, KvModel};
use crate::manipulate::{catalog_graph, catalog_outcome, validate_value, value_ok};
use crate::parse::{blank, parse_config, parse_lines, parse_line, split};
use crate::text::{strings, trim, trim_end, trim_start, white_space};
use crate::{catalog_model, entry_index, entry_names, find_entry, switch_string, ConfigEntry, Switch};

verus! {

/// Characters allowed in an option identifier.
pub open spec fn ident_char(c: char) -> bool {
    ||| 'A' <= c <= 'Z'
    ||| 'a' <= c <= 'z'
    ||| '0' <= c <= '9'
    ||| c == '_'
    ||| c == '-'
}

/// `t` starts with an identifier of `n` characters, then white space, `=`
/// and a value without line break.
pub open spec fn assignment_at(t: Seq<char>, n: int) -> bool {
    &&& 0 < n <= t.len()
    &&& forall|i: int| 0 <= i < n ==> ident_char(#[trigger] t[i])
    &&& {
        let u = trim_start(t.subrange(n, t.len() as int));
        u.len() > 0 && u[0] == '=' && !u.drop_first().contains('\n')
    }
}

/// A config line that is blank, or an identifier, `=` and a value, with
/// white space allowed around the identifier; the value holds no line break.
pub open spec fn well_formed_line(s: Seq<char>) -> bool {
    let t = trim_start(s);
    t.len() == 0 || exists|n: int| #[trigger] assignment_at(t, n)
}

/// Relies on `regex::Regex::is_match` with the pattern
/// `^\s*([A-Za-z0-9_-]+\s*=.*)?$`, whose `\s` is Unicode white space and
/// whose `.` is any character but a line break.
#[verifier::external_body]
fn line_format_ok(line: &str) -> (r: bool)
    ensures
        r == well_formed_line(line@),
{
    regex::Regex::new(r"^\s*([A-Za-z0-9_-]+\s*=.*)?$").unwrap().is_match(line)
}

/// Why a dependency counts as missing.
#[derive(Debug, Clone, Copy, PartialEq, Eq, Structural)]
pub enum Cause {
    /// The dependency is listed with a value other than `y`.
    NotSet,
    /// The dependency is not listed at all.
    NotListed,
}

/// A dependency that is not enabled, and the listed options that need it.
#[derive(Debug)]
pub struct MissingDependency {
    pub dependency: String,
    pub cause: Cause,
    pub required_by: Vec<String>,
}

/// Why a config failed validation. Each check reports every violation it
/// finds; the checks run in this order and the first failing one is
/// reported.
#[derive(Debug)]
pub enum ValidationError {
    /// Numbers, counted from 1, of the lines that are not `key = value`.
    Format(Vec<usize>),
    /// Keys that name no option, in file order.
    UnknownOptions(Vec<String>),
    /// Pairs whose value lies outside the option's domain, in file order.
    InvalidValues(Vec<(String, String)>),
    /// The catalog does not form a consistent dependency graph.
    Catalog(GraphError),
    /// Dependencies of listed options that are not enabled.
    Dependencies(Vec<MissingDependency>),
}

/// Numbers, counted from 1, of the lines of `ls` that are not well formed.
pub open spec fn malformed_lines(ls: Seq<Seq<char>>) -> Seq<int>
    decreases ls.len(),
{
    if ls.len() == 0 {
        Seq::empty()
    } else if well_formed_line(ls.last()) {
        malformed_lines(ls.drop_last())
    } else {
        malformed_lines(ls.drop_last()).push(ls.len() as int)
    }
}

/// Keys of `kv` that name no option of `es`, in order.
pub open spec fn unknown_keys(kv: KvModel, es: Seq<ConfigEntry>) -> Seq<Seq<char>>
    decreases kv.len(),
{
    if kv.len() == 0 {
        Seq::empty()
    } else if entry_names(es).contains(kv.last().0) {
        unknown_keys(kv.drop_last(), es)
    } else {
        unknown_keys(kv.drop_last(), es).push(kv.last().0)
    }
}

/// Pairs of `kv` whose value lies outside the domain of their option.
pub open spec fn invalid_pairs(kv: KvModel, es: Seq<ConfigEntry>) -> KvModel
    decreases kv.len(),
{
    if kv.len() == 0 {
        Seq::empty()
    } else if entry_index(es, kv.last().0) >= 0 && !value_ok(es[entry_index(es, kv.last().0)], kv.last().1) {
        invalid_pairs(kv.drop_last(), es).push(kv.last())
    } else {
        invalid_pairs(kv.drop_last(), es)
    }
}

/// Why dependency `d` counts as missing from `kv`, if it does.
pub open spec fn missing_cause(kv: KvModel, d: Seq<char>) -> Option<Cause> {
    match lookup(kv, d) {
        Some(v) => if v == seq!['y'] {
            None
        } else {
            Some(Cause::NotSet)
        },
        None => Some(Cause::NotListed),
    }
}

/// The keys of `kv`, in order, whose transitive dependencies include `d`.
pub open spec fn requirers(kv: KvModel, m: Seq<NodeModel>, d: Seq<char>) -> Seq<Seq<char>>
    decreases kv.len(),
{
    if kv.len() == 0 {
        Seq::empty()
    } else if dependency_closure(m, kv.last().0).contains(d) {
        requirers(kv.drop_last(), m, d).push(kv.last().0)
    } else {
        requirers(kv.drop_last(), m, d)
    }
}

/// The model of a diagnostic: dependency, cause and requiring options.
pub open spec fn missing_view(x: MissingDependency) -> (Seq<char>, Cause, Seq<Seq<char>>) {
    (x.dependency@, x.cause, strings(x.required_by@))
}

/// `out` reports each dependency of a listed option that is missing from
/// `kv` exactly once, with its cause and every listed option that needs it.
pub open spec fn diagnoses(kv: KvModel, m: Seq<NodeModel>, out: Seq<(Seq<char>, Cause, Seq<Seq<char>>)>) -> bool {
    &&& forall|a: int, b: int| 0 <= a < out.len() && 0 <= b < out.len() && a != b ==> out[a].0 != out[b].0
    &&& forall|t: int| 0 <= t < out.len() ==> {
        &&& missing_cause(kv, (#[trigger] out[t]).0) == Some(out[t].1)
        &&& out[t].2 == requirers(kv, m, out[t].0)
        &&& out[t].2.len() > 0
    }
    &&& forall|d: Seq<char>| missing_cause(kv, d) is Some && #[trigger] requirers(kv, m, d).len() > 0
        ==> exists|t: int| 0 <= t < out.len() && (#[trigger] out[t]).0 == d
}

/// Numbers, counted from 1, of the lines that are neither blank nor
/// `key = value`.
pub fn validate_line_format(lines: &Vec<String>) -> (r: Vec<usize>)
    ensures
        r@.map_values(|x: usize| x as int) == malformed_lines(strings(lines@)),
{
    let ghost ls = strings(lines@);
    let mut bad: Vec<usize> = Vec::new();
    let mut i: usize = 0;
    while i < lines.len()
        invariant
            i <= lines@.len(),
            ls == strings(lines@),
            bad@.map_values(|x: usize| x as int) == malformed_lines(ls.take(i as int)),
        decreases lines@.len() - i,
    {
        assert(ls.take(i + 1).drop_last() =~= ls.take(i as int));
        assert(ls.take(i + 1).last() == lines@[i as int]@);
        let ghost before = bad@;
        if !line_format_ok(lines[i].as_str()) {
            bad.push(i + 1);
            assert(bad@.map_values(|x: usize| x as int) =~= before.map_values(|x: usize| x as int).push(i + 1));
        }
        i = i + 1;
    }
    assert(ls.take(i as int) =~= ls);
    bad
}

/// Keys that name no option of the catalog, in order.
pub fn validate_options(kvpairs: &Vec<(String, String)>, entries: &[ConfigEntry]) -> (r: Vec<String>)
    ensures
        strings(r@) == unknown_keys(kv_view(kvpairs@), entries@),
{
    let ghost kv = kv_view(kvpairs@);
    let mut unknown: Vec<String> = Vec::new();
    let mut i: usize = 0;
    while i < kvpairs.len()
        invariant
            i <= kvpairs@.len(),
            kv == kv_view(kvpairs@),
            strings(unknown@) == unknown_keys(kv.take(i as int), entries@),
        decreases kvpairs@.len() - i,
    {
        assert(kv.take(i + 1).drop_last() =~= kv.take(i as int));
        let ghost before = strings(unknown@);
        let found = find_entry(entries, &kvpairs[i].0);
        proof {
            crate::kv::lemma_first_index(entry_names(entries@), kv[i as int].0);
            if entry_names(entries@).contains(kv[i as int].0) {
                let t = choose|t: int| 0 <= t < entry_names(entries@).len() && entry_names(entries@)[t] == kv[i as int].0;
                assert(entry_names(entries@)[t] == kv[i as int].0);
            }
        }
        if found.is_none() {
            unknown.push(kvpairs[i].0.clone());
            assert(strings(unknown@) =~= before.push(kv[i as int].0));
        } else {
            assert(entry_names(entries@)[entry_index(entries@, kv[i as int].0)] == kv[i as int].0);
        }
        i = i + 1;
    }
    assert(kv.take(i as int) =~= kv);
    unknown
}

/// Pairs whose value lies outside the domain of their option, in order.
pub fn validate_values(kvpairs: &Vec<(String, String)>, entries: &[ConfigEntry]) -> (r: Vec<(String, String)>)
    ensures
        kv_view(r@) == invalid_pairs(kv_view(kvpairs@), entries@),
{
    let ghost kv = kv_view(kvpairs@);
    let mut invalid: Vec<(String, String)> = Vec::new();
    let mut i: usize = 0;
    while i < kvpairs.len()
        invariant
            i <= kvpairs@.len(),
            kv == kv_view(kvpairs@),
            kv_view(invalid@) == invalid_pairs(kv.take(i as int), entries@),
        decreases kvpairs@.len() - i,
    {
        assert(kv.take(i + 1).drop_last() =~= kv.take(i as int));
        let ghost before = kv_view(invalid@);
        if let Some(p) = find_entry(entries, &kvpairs[i].0) {
            if validate_value(kvpairs[i].1.as_str(), &entries[p]).is_err() {
                invalid.push((kvpairs[i].0.clone(), kvpairs[i].1.clone()));
                assert(kv_view(invalid@) =~= before.push(kv[i as int]));
            }
        }
        i = i + 1;
    }
    assert(kv.take(i as int) =~= kv);
    invalid
}

/// The options of `kv[..i]` that need `d`, then `key` when `d` is among
/// the dependencies of `key` handled so far.
spec fn pending(kv: KvModel, m: Seq<NodeModel>, i: int, key: Seq<char>, done: Seq<Seq<char>>, d: Seq<char>) -> Seq<Seq<char>> {
    if done.contains(d) {
        requirers(kv.take(i), m, d).push(key)
    } else {
        requirers(kv.take(i), m, d)
    }
}

/// `out` reports the missing dependencies with the requiring options that
/// `pending` gives.
spec fn tracks(
    kv: KvModel,
    m: Seq<NodeModel>,
    out: Seq<(Seq<char>, Cause, Seq<Seq<char>>)>,
    i: int,
    key: Seq<char>,
    done: Seq<Seq<char>>,
) -> bool {
    &&& forall|a: int, b: int| 0 <= a < out.len() && 0 <= b < out.len() && a != b ==> out[a].0 != out[b].0
    &&& forall|t: int| 0 <= t < out.len() ==> {
        &&& missing_cause(kv, (#[trigger] out[t]).0) == Some(out[t].1)
        &&& out[t].2 == pending(kv, m, i, key, done, out[t].0)
        &&& out[t].2.len() > 0
    }
    &&& forall|d: Seq<char>| missing_cause(kv, d) is Some && #[trigger] pending(kv, m, i, key, done, d).len() > 0
        ==> exists|t: int| 0 <= t < out.len() && (#[trigger] out[t]).0 == d
}

/// A name that is no node has no dependencies.
proof fn lemma_closure_of_absent(m: Seq<NodeModel>, x: Seq<char>)
    requires
        !crate::graph::names_of(m).contains(x),
    ensures
        dependency_closure(m, x) == Set::<Seq<char>>::empty(),
{
    assert forall|y: Seq<char>| !dependency_closure(m, x).contains(y) by {
        if dependency_closure(m, x).contains(y) {
            let (s, k) = choose|s: int, k: int|
                0 <= s < m.len() && 0 <= k < m.len() && m[s].0 == x && m[k].0 == y
                    && #[trigger] crate::graph::reaches(m, true, s, k);
            assert(crate::graph::names_of(m)[s] == x);
        }
    }
    assert(dependency_closure(m, x) =~= Set::<Seq<char>>::empty());
}

/// Index of the diagnostic for dependency `d`.
fn find_missing(missing: &Vec<MissingDependency>, d: &String) -> (r: Option<usize>)
    ensures
        r matches Some(t) ==> t < missing@.len() && missing@[t as int].dependency@ == d@,
        r is None ==> forall|t: int| 0 <= t < missing@.len() ==> (#[trigger] missing@[t]).dependency@ != d@,
{
    let mut t: usize = 0;
    while t < missing.len()
        invariant
            t <= missing@.len(),
            forall|u: int| 0 <= u < t ==> (#[trigger] missing@[u]).dependency@ != d@,
        decreases missing@.len() - t,
    {
        if missing[t].dependency == *d {
            return Some(t);
        }
        t = t + 1;
    }
    None
}

/// Every dependency of a listed option that is not listed as `y`, once,
/// with its cause and the listed options that need it, in file order.
pub fn check_dependencies(graph: &Graph<Complete>, kvpairs: &Vec<(String, String)>) -> (r: Vec<MissingDependency>)
    requires
        graph.ready(),
    ensures
        diagnoses(kv_view(kvpairs@), graph@, r@.map_values(|x: MissingDependency| missing_view(x))),
{
    let ghost kv = kv_view(kvpairs@);
    let ghost m = graph@;
    let y = switch_string(Switch::Yes);
    let mut missing: Vec<MissingDependency> = Vec::new();
    proof {
        assert(missing@.map_values(|x: MissingDependency| missing_view(x)) =~= Seq::empty());
    }
    let mut i: usize = 0;
    while i < kvpairs.len()
        invariant
            i <= kvpairs@.len(),
            kv == kv_view(kvpairs@),
            m == graph@,
            graph.ready(),
            y@ == seq!['y'],
            tracks(kv, m, missing@.map_values(|x: MissingDependency| missing_view(x)), i as int, Seq::empty(), Seq::empty()),
        decreases kvpairs@.len() - i,
    {
        let key = &kvpairs[i].0;
        let ghost k = kv[i as int].0;
        let deps: Vec<String> = match graph.dependencies_of(key.as_str()) {
            Ok(d) => d,
            Err(_) => Vec::new(),
        };
        let ghost ds = strings(deps@);
        proof {
            if !crate::graph::names_of(m).contains(k) {
                lemma_closure_of_absent(m, k);
                assert(ds.to_set() =~= Set::<Seq<char>>::empty());
            }
            let out = missing@.map_values(|x: MissingDependency| missing_view(x));
            assert forall|d: Seq<char>| #[trigger] pending(kv, m, i as int, k, ds.take(0), d)
                == pending(kv, m, i as int, Seq::empty(), Seq::empty(), d) by {}
        }
        let mut j: usize = 0;
        while j < deps.len()
            invariant
                i < kvpairs@.len(),
                j <= deps@.len(),
                kv == kv_view(kvpairs@),
                y@ == seq!['y'],
                k == kv[i as int].0,
                key@ == k,
                ds == strings(deps@),
                ds.no_duplicates(),
                tracks(kv, m, missing@.map_values(|x: MissingDependency| missing_view(x)), i as int, k, ds.take(j as int)),
            decreases deps@.len() - j,
        {
            let d = &deps[j];
            let ghost out0 = missing@.map_values(|x: MissingDependency| missing_view(x));
            let ghost done = ds.take(j as int);
            let ghost done1 = ds.take(j + 1);
            proof {
                assert(done1 =~= done.push(d@));
                assert(!done.contains(d@)) by {
                    if done.contains(d@) {
                        let u = choose|u: int| 0 <= u < done.len() && done[u] == d@;
                        assert(ds[u] == ds[j as int]);
                    }
                }
                assert forall|x: Seq<char>| x != d@ implies #[trigger] pending(kv, m, i as int, k, done1, x)
                    == pending(kv, m, i as int, k, done, x) by {
                    if done1.contains(x) {
                        let u = choose|u: int| 0 <= u < done1.len() && done1[u] == x;
                        assert(done[u] == x);
                    }
                    if done.contains(x) {
                        let u = choose|u: int| 0 <= u < done.len() && done[u] == x;
                        assert(done1[u] == x);
                    }
                }
                assert(done1[j as int] == d@);
                assert(pending(kv, m, i as int, k, done1, d@) == pending(kv, m, i as int, k, done, d@).push(k));
            }
            let cause = match crate::kv::find_key(kvpairs, d) {
                Some(p) => {
                    proof {
                        crate::kv::lemma_first_index(crate::kv::keys_of(kv), d@);
                    }
                    if kvpairs[p].1 == y {
                        None
                    } else {
                        Some(Cause::NotSet)
                    }
                },
                None => Some(Cause::NotListed),
            };
            assert(cause == missing_cause(kv, d@));
            if let Some(c) = cause {
                match find_missing(&missing, d) {
                    Some(t) => {
                        missing[t].required_by.push(key.clone());
                        proof {
                            let out1 = missing@.map_values(|x: MissingDependency| missing_view(x));
                            assert(out0[t as int].0 == d@);
                            assert(out1[t as int].2 =~= out0[t as int].2.push(k));
                            assert forall|u: int| 0 <= u < out1.len() && u != t implies #[trigger] out1[u] == out0[u] by {}
                            assert forall|x: Seq<char>| missing_cause(kv, x) is Some && #[trigger] pending(kv, m, i as int, k, done1, x).len() > 0
                                implies exists|u: int| 0 <= u < out1.len() && (#[trigger] out1[u]).0 == x by {
                                if x == d@ {
                                    assert(out1[t as int].0 == x);
                                } else {
                                    assert(pending(kv, m, i as int, k, done, x).len() > 0);
                                    let u = choose|u: int| 0 <= u < out0.len() && (#[trigger] out0[u]).0 == x;
                                    assert(out1[u].0 == x);
                                }
                            }
                        }
                    },
                    None => {
                        proof {
                            assert(pending(kv, m, i as int, k, done, d@).len() == 0) by {
                                if pending(kv, m, i as int, k, done, d@).len() > 0 {
                                    let u = choose|u: int| 0 <= u < out0.len() && (#[trigger] out0[u]).0 == d@;
                                    assert(missing@[u].dependency@ == d@);
                                }
                            }
                        }
                        let mut required_by: Vec<String> = Vec::new();
                        required_by.push(key.clone());
                        assert(strings(required_by@) =~= seq![k]);
                        let ghost before_push = missing@;
                        missing.push(MissingDependency { dependency: d.clone(), cause: c, required_by });
                        proof {
                            let out1 = missing@.map_values(|x: MissingDependency| missing_view(x));
                            assert(missing@ == before_push.push(missing@[out0.len() as int]));
                            assert(missing_view(missing@[out0.len() as int]) == (d@, c, seq![k]));
                            assert(out1 =~= out0.push((d@, c, seq![k])));
                            assert(pending(kv, m, i as int, k, done1, d@) =~= seq![k]);
                            assert forall|x: Seq<char>| missing_cause(kv, x) is Some && #[trigger] pending(kv, m, i as int, k, done1, x).len() > 0
                                implies exists|u: int| 0 <= u < out1.len() && (#[trigger] out1[u]).0 == x by {
                                if x == d@ {
                                    assert(out1[out0.len() as int].0 == x);
                                } else {
                                    assert(pending(kv, m, i as int, k, done, x).len() > 0);
                                    let u = choose|u: int| 0 <= u < out0.len() && (#[trigger] out0[u]).0 == x;
                                    assert(out1[u].0 == x);
                                }
                            }
                            assert forall|a: int, b: int| 0 <= a < out1.len() && 0 <= b < out1.len() && a != b
                                implies out1[a].0 != out1[b].0 by {
                                if a == out0.len() {
                                    assert(missing@[b].dependency@ != d@);
                                } else if b == out0.len() {
                                    assert(missing@[a].dependency@ != d@);
                                }
                            }
                        }
                    },
                }
            } else {
                proof {
                    let out1 = missing@.map_values(|x: MissingDependency| missing_view(x));
                    assert forall|x: Seq<char>| missing_cause(kv, x) is Some && #[trigger] pending(kv, m, i as int, k, done1, x).len() > 0
                        implies exists|u: int| 0 <= u < out1.len() && (#[trigger] out1[u]).0 == x by {
                        assert(pending(kv, m, i as int, k, done, x).len() > 0);
                    }
                }
            }
            j = j + 1;
        }
        proof {
            assert(ds.take(j as int) =~= ds);
            assert(kv.take(i + 1).drop_last() =~= kv.take(i as int));
            assert(kv.take(i + 1).last() == kv[i as int]);
            assert forall|x: Seq<char>| #[trigger] pending(kv, m, i + 1, Seq::empty(), Seq::empty(), x)
                == pending(kv, m, i as int, k, ds, x) by {
                assert(ds.to_set().contains(x) == ds.contains(x));
            }
        }
        i = i + 1;
    }
    proof {
        assert(kv.take(i as int) =~= kv);
        let out = missing@.map_values(|x: MissingDependency| missing_view(x));
        assert forall|d: Seq<char>| #[trigger] pending(kv, m, i as int, Seq::empty(), Seq::empty(), d)
            == requirers(kv, m, d) by {}
        assert forall|d: Seq<char>| missing_cause(kv, d) is Some && #[trigger] requirers(kv, m, d).len() > 0
            implies exists|t: int| 0 <= t < out.len() && (#[trigger] out[t]).0 == d by {
            assert(pending(kv, m, i as int, Seq::empty(), Seq::empty(), d).len() > 0);
        }
    }
    missing
}

/// Trimming the start leaves a suffix.
proof fn lemma_trim_start_suffix(s: Seq<char>)
    ensures
        trim_start(s).len() <= s.len(),
        trim_start(s) == s.subrange(s.len() - trim_start(s).len(), s.len() as int),
    decreases s.len(),
{
    if s.len() > 0 && white_space(s[0]) {
        lemma_trim_start_suffix(s.drop_first());
        assert(s.drop_first().subrange(s.len() - 1 - trim_start(s).len(), s.len() - 1)
            =~= s.subrange(s.len() - trim_start(s).len(), s.len() as int));
    } else {
        assert(s.subrange(0, s.len() as int) =~= s);
    }
}

/// A text holding `sep` splits into at least two pieces.
proof fn lemma_split_two(s: Seq<char>, sep: char)
    requires
        s.contains(sep),
    ensures
        split(s, sep).len() >= 2,
    decreases s.len(),
{
    let init = s.drop_last();
    if s.last() != sep {
        let t = choose|t: int| 0 <= t < s.len() && s[t] == sep;
        assert(init[t] == sep);
        lemma_split_two(init, sep);
    } else {
        crate::parse::lemma_split_nonempty(init, sep);
    }
}

/// A well-formed line that is not blank holds `=`, so it parses.
proof fn lemma_well_formed_parses(l: Seq<char>)
    requires
        well_formed_line(l),
        !blank(l),
    ensures
        parse_line(l) is Some,
{
    let t = trim_start(l);
    assert(t.len() > 0) by {
        if t.len() == 0 {
            assert(trim(l) == trim_end(t));
            assert(trim_end(t) =~= t);
        }
    }
    let n = choose|n: int| #[trigger] assignment_at(t, n);
    let rest = t.subrange(n, t.len() as int);
    let u = trim_start(rest);
    lemma_trim_start_suffix(rest);
    lemma_trim_start_suffix(l);
    let off = rest.len() - u.len();
    assert(rest[off] == '=');
    assert(t[n + off] == '=');
    assert(l[l.len() - t.len() + n + off] == '=');
    lemma_split_two(l, '=');
}

/// Lines without a malformed one parse.
proof fn lemma_parses(ls: Seq<Seq<char>>)
    requires
        malformed_lines(ls).len() == 0,
    ensures
        parse_lines(ls) is Some,
    decreases ls.len(),
{
    if ls.len() > 0 {
        if !well_formed_line(ls.last()) {
            assert(malformed_lines(ls).len() > 0);
        }
        lemma_parses(ls.drop_last());
        if !blank(ls.last()) {
            lemma_well_formed_parses(ls.last());
        }
    }
}

/// No listed option needs a dependency that is missing.
pub open spec fn dependencies_met(kv: KvModel, m: Seq<NodeModel>) -> bool {
    forall|d: Seq<char>| missing_cause(kv, d) is Some ==> #[trigger] requirers(kv, m, d).len() == 0
}

/// Checks the lines of a config file against the catalog: the line format,
/// then the keys, then the values, then the catalog itself, then that every
/// dependency of a listed option is listed as `y`. Fails with the
/// violations of the first check that finds any.
pub fn validate_config(lines: &Vec<String>, entries: &[ConfigEntry]) -> (r: Result<(), ValidationError>)
    ensures
        malformed_lines(strings(lines@)).len() > 0 ==> (r matches Err(ValidationError::Format(bad))
            && bad@.map_values(|x: usize| x as int) == malformed_lines(strings(lines@))),
        malformed_lines(strings(lines@)).len() == 0 ==> parse_lines(strings(lines@)) is Some,
        malformed_lines(strings(lines@)).len() == 0 ==> ({
            let kv = parse_lines(strings(lines@))->Some_0;
            let m = catalog_model(entries@);
            &&& unknown_keys(kv, entries@).len() > 0 ==> (r matches Err(ValidationError::UnknownOptions(u))
                && strings(u@) == unknown_keys(kv, entries@))
            &&& unknown_keys(kv, entries@).len() == 0 && invalid_pairs(kv, entries@).len() > 0
                ==> (r matches Err(ValidationError::InvalidValues(p)) && kv_view(p@) == invalid_pairs(kv, entries@))
            &&& unknown_keys(kv, entries@).len() == 0 && invalid_pairs(kv, entries@).len() == 0
                && catalog_outcome(entries@) is Err ==> (r matches Err(ValidationError::Catalog(g))
                && catalog_outcome(entries@) == Err::<(), GraphError>(g))
            &&& unknown_keys(kv, entries@).len() == 0 && invalid_pairs(kv, entries@).len() == 0
                && catalog_outcome(entries@) is Ok && !dependencies_met(kv, m) ==> (r matches Err(ValidationError::Dependencies(out))
                && out@.len() > 0 && diagnoses(kv, m, out@.map_values(|x: MissingDependency| missing_view(x))))
            &&& r is Ok <==> unknown_keys(kv, entries@).len() == 0 && invalid_pairs(kv, entries@).len() == 0
                && catalog_outcome(entries@) is Ok && dependencies_met(kv, m)
        }),
{
    let bad = validate_line_format(lines);
    if bad.len() > 0 {
        return Err(ValidationError::Format(bad));
    }
    proof {
        assert(bad@.map_values(|x: usize| x as int).len() == 0);
        lemma_parses(strings(lines@));
    }
    let kvpairs = match parse_config(lines) {
        Ok(kv) => kv,
        Err(_) => return Err(ValidationError::Format(bad)),
    };
    let unknown = validate_options(&kvpairs, entries);
    if unknown.len() > 0 {
        return Err(ValidationError::UnknownOptions(unknown));
    }
    let invalid = validate_values(&kvpairs, entries);
    if invalid.len() > 0 {
        return Err(ValidationError::InvalidValues(invalid));
    }
    let graph = match catalog_graph(entries) {
        Ok(g) => g,
        Err(e) => return Err(ValidationError::Catalog(e)),
    };
    let missing = check_dependencies(&graph, &kvpairs);
    if missing.len() > 0 {
        proof {
            let kv = kv_view(kvpairs@);
            let out = missing@.map_values(|x: MissingDependency| missing_view(x));
            assert(!dependencies_met(kv, graph@)) by {
                assert(missing_cause(kv, out[0].0) is Some);
                assert(requirers(kv, graph@, out[0].0).len() > 0);
            }
        }
        return Err(ValidationError::Dependencies(missing));
    }
    proof {
        let kv = kv_view(kvpairs@);
        let out = missing@.map_values(|x: MissingDependency| missing_view(x));
        assert forall|d: Seq<char>| missing_cause(kv, d) is Some implies #[trigger] requirers(kv, graph@, d).len() == 0 by {
            if requirers(kv, graph@, d).len() > 0 {
                let t = choose|t: int| 0 <= t < out.len() && (#[trigger] out[t]).0 == d;
            }
        }
    }
    Ok(())
}

} // verus!
