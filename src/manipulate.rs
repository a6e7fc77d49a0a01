use vstd::prelude::*;
use crate::graph::{
    all_resolved, build_outcome, dependency_closure, dependent_closure, names_of, model_ok,
    Complete, Graph, GraphError,
};
use crate::kv::{
    keys_of, kv_view, lemma_first_index, lemma_remove_lookup, lemma_upsert_lookup,
    lemma_upsert_twice, lookup, remove_key, remove_pairs, upsert, upsert_all, upsert_pair, KvModel,
};
use crate::text::{strings, trim, trim_str};
use crate::{
    catalog_model, entry_index, entry_names, find_entry, is_switch_option, switch_string,
    switch_text, ConfigEntry, ConfigError, EntryType, Switch,
};

verus! {

/// What building and sealing the catalog's graph returns.
pub open spec fn catalog_outcome(es: Seq<ConfigEntry>) -> Result<(), GraphError> {
    match build_outcome(es) {
        Err(e) => Err(e),
        Ok(_) => if all_resolved(catalog_model(es)) {
            Ok(())
        } else {
            Err(GraphError::IncompleteGraph)
        },
    }
}

/// The sealed dependency graph of a catalog.
pub fn catalog_graph(entries: &[ConfigEntry]) -> (r: Result<Graph<Complete>, GraphError>)
    ensures
        r is Ok <==> catalog_outcome(entries@) is Ok,
        r matches Err(e) ==> catalog_outcome(entries@) == Err::<(), GraphError>(e),
        r matches Ok(g) ==> g.ready() && g@ == catalog_model(entries@) && model_ok(g@),
{
    let g = match Graph::from_entries(entries) {
        Ok(g) => g,
        Err(e) => return Err(e),
    };
    g.into_complete()
}

/// The catalog's node identifiers are its entry names.
pub proof fn lemma_catalog_names(es: Seq<ConfigEntry>)
    ensures
        names_of(catalog_model(es)) == entry_names(es),
{
    assert(names_of(catalog_model(es)) =~= entry_names(es));
}

/// Text `s` is decimal digits with optional white space around them.
pub open spec fn integer_text(s: Seq<char>) -> bool {
    let t = trim(s);
    t.len() > 0 && forall|i: int| 0 <= i < t.len() ==> '0' <= #[trigger] t[i] <= '9'
}

/// Relies on `regex::Regex::is_match` with the pattern `^\s*[0-9]+\s*$`,
/// whose `\s` is Unicode white space: true exactly for one or more ASCII
/// digits with only white space around them.
#[verifier::external_body]
fn is_integer(s: &str) -> (r: bool)
    ensures
        r == integer_text(s@),
{
    regex::Regex::new(r"^\s*[0-9]+\s*$").unwrap().is_match(s)
}

/// Value `v` lies in the domain of entry `e`: `y` or `n` for a switch,
/// digits for an integer, and one of the choices when the entry lists any.
pub open spec fn value_ok(e: ConfigEntry, v: Seq<char>) -> bool {
    &&& (e.enttype is Switch ==> v == seq!['y'] || v == seq!['n'])
    &&& (e.enttype is Int ==> integer_text(v))
    &&& (e.choices matches Some(c) ==> strings(c.0@).contains(v))
}

/// Checks `value` against the domain of `ent`; fails with `InvalidValue`.
pub fn validate_value(value: &str, ent: &ConfigEntry) -> (r: Result<(), ConfigError>)
    ensures
        r is Ok <==> value_ok(*ent, value@),
        r matches Err(e) ==> e == ConfigError::InvalidValue,
{
    let v = value.to_owned();
    match &ent.enttype {
        EntryType::Switch(_) => {
            let y = switch_string(Switch::Yes);
            let n = switch_string(Switch::No);
            if v != y && v != n {
                return Err(ConfigError::InvalidValue);
            }
        },
        EntryType::String(_) => {},
        EntryType::Int(_) => {
            if !is_integer(value) {
                return Err(ConfigError::InvalidValue);
            }
        },
    }
    if let Some(choices) = &ent.choices {
        if !crate::text::contains_text(&choices.0, &v) {
            return Err(ConfigError::InvalidValue);
        }
    }
    Ok(())
}

/// After upserting each key of `ds` with `v`, those keys hold `v` and every
/// other key keeps its value.
pub proof fn lemma_upsert_all_lookup(kv: KvModel, ds: Seq<Seq<char>>, v: Seq<char>, d: Seq<char>)
    ensures
        lookup(upsert_all(kv, ds, v), d) == if ds.contains(d) { Some(v) } else { lookup(kv, d) },
    decreases ds.len(),
{
    if ds.len() > 0 {
        let init = ds.drop_last();
        lemma_upsert_all_lookup(kv, init, v, d);
        lemma_upsert_lookup(upsert_all(kv, init, v), ds.last(), v, d);
        if init.contains(d) {
            let t = choose|t: int| 0 <= t < init.len() && init[t] == d;
            assert(ds[t] == d);
        }
        if ds.contains(d) && ds.last() != d {
            let t = choose|t: int| 0 <= t < ds.len() && ds[t] == d;
            assert(init[t] == d);
        }
    }
}

/// What disabling option `d` does to the options that depend on another one:
/// a switch is set to `n`, any other option is removed.
pub open spec fn disable_step(kv: KvModel, d: Seq<char>, es: Seq<ConfigEntry>) -> KvModel {
    if is_switch_option(es, d) {
        upsert(kv, d, seq!['n'])
    } else {
        remove_key(kv, d)
    }
}

/// Applies `disable_step` to each key of `ds`, in order.
pub open spec fn disable_all(kv: KvModel, ds: Seq<Seq<char>>, es: Seq<ConfigEntry>) -> KvModel
    decreases ds.len(),
{
    if ds.len() == 0 {
        kv
    } else {
        disable_step(disable_all(kv, ds.drop_last(), es), ds.last(), es)
    }
}

/// After `disable_all`, each switch of `ds` is `n`, each other option of
/// `ds` is gone, and every key outside `ds` keeps its value.
pub proof fn lemma_disable_all_lookup(kv: KvModel, ds: Seq<Seq<char>>, es: Seq<ConfigEntry>, d: Seq<char>)
    ensures
        lookup(disable_all(kv, ds, es), d) == if !ds.contains(d) {
            lookup(kv, d)
        } else if is_switch_option(es, d) {
            Some(seq!['n'])
        } else {
            None
        },
    decreases ds.len(),
{
    if ds.len() > 0 {
        let init = ds.drop_last();
        lemma_disable_all_lookup(kv, init, es, d);
        let prev = disable_all(kv, init, es);
        if is_switch_option(es, ds.last()) {
            lemma_upsert_lookup(prev, ds.last(), seq!['n'], d);
        } else {
            lemma_remove_lookup(prev, ds.last(), d);
        }
        if init.contains(d) {
            let t = choose|t: int| 0 <= t < init.len() && init[t] == d;
            assert(ds[t] == d);
        }
        if ds.contains(d) && ds.last() != d {
            let t = choose|t: int| 0 <= t < ds.len() && ds[t] == d;
            assert(init[t] == d);
        }
    }
}

/// No pair has a key for which `lookup` finds nothing.
pub proof fn lemma_lookup_none(kv: KvModel, d: Seq<char>)
    ensures
        lookup(kv, d) is None <==> !keys_of(kv).contains(d),
{
    lemma_first_index(keys_of(kv), d);
    if keys_of(kv).contains(d) {
        let t = choose|t: int| 0 <= t < keys_of(kv).len() && keys_of(kv)[t] == d;
        assert(keys_of(kv)[t] == d);
    }
    if lookup(kv, d) is Some {
        assert(keys_of(kv)[crate::kv::first_index(keys_of(kv), d)] == d);
    }
}

/// Forces every transitive dependency of `opt` to `y`, updating a pair in
/// place or appending it.
pub fn enable_dependencies(opt: &str, kvpairs: &mut Vec<(String, String)>, entries: &[ConfigEntry]) -> (r: Result<(), ConfigError>)
    ensures
        r is Ok <==> catalog_outcome(entries@) is Ok && entry_names(entries@).contains(opt@),
        catalog_outcome(entries@) matches Err(g) ==> r == Err::<(), ConfigError>(ConfigError::Catalog(g)),
        catalog_outcome(entries@) is Ok && !entry_names(entries@).contains(opt@) ==> r == Err::<(), ConfigError>(ConfigError::InvalidOption),
        r is Err ==> final(kvpairs)@ == old(kvpairs)@,
        r is Ok ==> exists|ds: Seq<Seq<char>>|
            ds.no_duplicates() && ds.to_set() == dependency_closure(catalog_model(entries@), opt@)
                && kv_view(final(kvpairs)@) == #[trigger] upsert_all(kv_view(old(kvpairs)@), ds, seq!['y']),
        r is Ok ==> forall|d: Seq<char>| #[trigger] dependency_closure(catalog_model(entries@), opt@).contains(d)
            ==> lookup(kv_view(final(kvpairs)@), d) == Some(seq!['y']),
        r is Ok ==> forall|d: Seq<char>| !#[trigger] dependency_closure(catalog_model(entries@), opt@).contains(d)
            ==> lookup(kv_view(final(kvpairs)@), d) == lookup(kv_view(old(kvpairs)@), d),
{
    proof {
        lemma_catalog_names(entries@);
    }
    let graph = match catalog_graph(entries) {
        Ok(g) => g,
        Err(e) => return Err(ConfigError::Catalog(e)),
    };
    let deps = match graph.dependencies_of(opt) {
        Ok(deps) => deps,
        Err(_) => return Err(ConfigError::InvalidOption),
    };
    let ghost ds = strings(deps@);
    let ghost kv0 = kv_view(kvpairs@);
    let y = switch_string(Switch::Yes);
    let mut i: usize = 0;
    while i < deps.len()
        invariant
            i <= deps@.len(),
            ds == strings(deps@),
            y@ == seq!['y'],
            kv_view(kvpairs@) == upsert_all(kv0, ds.take(i as int), seq!['y']),
        decreases deps@.len() - i,
    {
        assert(ds.take(i + 1).drop_last() =~= ds.take(i as int));
        upsert_pair(kvpairs, &deps[i], y.clone());
        i = i + 1;
    }
    proof {
        assert(ds.take(i as int) =~= ds);
        let cl = dependency_closure(catalog_model(entries@), opt@);
        assert forall|d: Seq<char>| #[trigger] cl.contains(d) implies lookup(kv_view(kvpairs@), d) == Some(seq!['y']) by {
            lemma_upsert_all_lookup(kv0, ds, seq!['y'], d);
            assert(ds.to_set().contains(d));
        }
        assert forall|d: Seq<char>| !#[trigger] cl.contains(d) implies lookup(kv_view(kvpairs@), d) == lookup(kv0, d) by {
            lemma_upsert_all_lookup(kv0, ds, seq!['y'], d);
            if ds.contains(d) {
                assert(ds.to_set().contains(d));
            }
        }
    }
    Ok(())
}

/// Disables every transitive dependent of `opt`: a switch is set to `n`
/// (updated in place or appended), any other option is removed.
pub fn disable_dependent(opt: &str, kvpairs: &mut Vec<(String, String)>, entries: &[ConfigEntry]) -> (r: Result<(), ConfigError>)
    ensures
        r is Ok <==> catalog_outcome(entries@) is Ok && entry_names(entries@).contains(opt@),
        catalog_outcome(entries@) matches Err(g) ==> r == Err::<(), ConfigError>(ConfigError::Catalog(g)),
        catalog_outcome(entries@) is Ok && !entry_names(entries@).contains(opt@) ==> r == Err::<(), ConfigError>(ConfigError::InvalidOption),
        r is Err ==> final(kvpairs)@ == old(kvpairs)@,
        r is Ok ==> exists|ds: Seq<Seq<char>>|
            ds.no_duplicates() && ds.to_set() == dependent_closure(catalog_model(entries@), opt@)
                && kv_view(final(kvpairs)@) == #[trigger] disable_all(kv_view(old(kvpairs)@), ds, entries@),
        r is Ok ==> forall|d: Seq<char>| #[trigger] dependent_closure(catalog_model(entries@), opt@).contains(d)
            && is_switch_option(entries@, d) ==> lookup(kv_view(final(kvpairs)@), d) == Some(seq!['n']),
        r is Ok ==> forall|d: Seq<char>| #[trigger] dependent_closure(catalog_model(entries@), opt@).contains(d)
            && !is_switch_option(entries@, d) ==> !keys_of(kv_view(final(kvpairs)@)).contains(d),
        r is Ok ==> forall|d: Seq<char>| !#[trigger] dependent_closure(catalog_model(entries@), opt@).contains(d)
            ==> lookup(kv_view(final(kvpairs)@), d) == lookup(kv_view(old(kvpairs)@), d),
{
    proof {
        lemma_catalog_names(entries@);
    }
    let graph = match catalog_graph(entries) {
        Ok(g) => g,
        Err(e) => return Err(ConfigError::Catalog(e)),
    };
    let dependent = match graph.dependent_vertices(opt) {
        Ok(d) => d,
        Err(_) => return Err(ConfigError::InvalidOption),
    };
    let ghost ds = strings(dependent@);
    let ghost kv0 = kv_view(kvpairs@);
    let n = switch_string(Switch::No);
    let mut i: usize = 0;
    while i < dependent.len()
        invariant
            i <= dependent@.len(),
            ds == strings(dependent@),
            n@ == seq!['n'],
            kv_view(kvpairs@) == disable_all(kv0, ds.take(i as int), entries@),
        decreases dependent@.len() - i,
    {
        assert(ds.take(i + 1).drop_last() =~= ds.take(i as int));
        let switch = match find_entry(entries, &dependent[i]) {
            Some(p) => entries[p].is_switch(),
            None => false,
        };
        if switch {
            upsert_pair(kvpairs, &dependent[i], n.clone());
        } else {
            remove_pairs(kvpairs, &dependent[i]);
        }
        i = i + 1;
    }
    proof {
        assert(ds.take(i as int) =~= ds);
        let cl = dependent_closure(catalog_model(entries@), opt@);
        assert forall|d: Seq<char>| #[trigger] cl.contains(d) && is_switch_option(entries@, d)
            implies lookup(kv_view(kvpairs@), d) == Some(seq!['n']) by {
            lemma_disable_all_lookup(kv0, ds, entries@, d);
            assert(ds.to_set().contains(d));
        }
        assert forall|d: Seq<char>| #[trigger] cl.contains(d) && !is_switch_option(entries@, d)
            implies !keys_of(kv_view(kvpairs@)).contains(d) by {
            lemma_disable_all_lookup(kv0, ds, entries@, d);
            lemma_lookup_none(kv_view(kvpairs@), d);
            assert(ds.to_set().contains(d));
        }
        assert forall|d: Seq<char>| !#[trigger] cl.contains(d) implies lookup(kv_view(kvpairs@), d) == lookup(kv0, d) by {
            lemma_disable_all_lookup(kv0, ds, entries@, d);
            if ds.contains(d) {
                assert(ds.to_set().contains(d));
            }
        }
    }
    Ok(())
}

/// What setting switch `opt` to `desired` does to the key-value set `kv`.
pub open spec fn set_switch_outcome(kv: KvModel, es: Seq<ConfigEntry>, opt: Seq<char>, desired: Switch) -> Result<KvModel, ConfigError> {
    if entry_index(es, opt) < 0 {
        Err(ConfigError::InvalidOption)
    } else if !(es[entry_index(es, opt)].enttype is Switch) {
        Err(ConfigError::NotASwitch)
    } else {
        Ok(upsert(kv, opt, switch_text(desired)))
    }
}

/// Sets switch `opt` to `desired`, updating its pair in place or appending
/// it. Fails with `InvalidOption` when the catalog has no such option and
/// with `NotASwitch` when it is not a switch.
pub fn set_switch(opt: &str, desired: Switch, kvpairs: &mut Vec<(String, String)>, entries: &[ConfigEntry]) -> (r: Result<(), ConfigError>)
    ensures
        match set_switch_outcome(kv_view(old(kvpairs)@), entries@, opt@, desired) {
            Ok(m) => r is Ok && kv_view(final(kvpairs)@) == m,
            Err(e) => r == Err::<(), ConfigError>(e) && final(kvpairs)@ == old(kvpairs)@,
        },
{
    let name = opt.to_owned();
    let p = match find_entry(entries, &name) {
        Some(p) => p,
        None => return Err(ConfigError::InvalidOption),
    };
    if !entries[p].is_switch() {
        return Err(ConfigError::NotASwitch);
    }
    upsert_pair(kvpairs, &name, switch_string(desired));
    Ok(())
}

/// Setting a switch twice in a row gives what setting it once gives.
pub proof fn lemma_set_switch_idempotent(kv: KvModel, es: Seq<ConfigEntry>, opt: Seq<char>, desired: Switch)
    ensures
        set_switch_outcome(kv, es, opt, desired) matches Ok(once) ==> set_switch_outcome(once, es, opt, desired)
            == Ok::<KvModel, ConfigError>(once),
{
    lemma_upsert_twice(kv, opt, switch_text(desired));
}

/// A copy of the pairs of `kv`.
fn copy_pairs(kv: &Vec<(String, String)>) -> (r: Vec<(String, String)>)
    ensures
        kv_view(r@) == kv_view(kv@),
{
    let mut r: Vec<(String, String)> = Vec::new();
    let mut i: usize = 0;
    while i < kv.len()
        invariant
            i <= kv@.len(),
            r@.len() == i,
            forall|t: int| 0 <= t < i ==> (#[trigger] r@[t]).0@ == kv@[t].0@ && r@[t].1@ == kv@[t].1@,
        decreases kv@.len() - i,
    {
        r.push((kv[i].0.clone(), kv[i].1.clone()));
        i = i + 1;
    }
    assert(kv_view(r@) =~= kv_view(kv@));
    r
}

/// Enables switch `opt` and every option it depends on, directly or not:
/// each of them holds `y` afterwards, updated in place or appended.
pub fn enable(opt: &str, kvpairs: &Vec<(String, String)>, entries: &[ConfigEntry]) -> (r: Result<Vec<(String, String)>, ConfigError>)
    ensures
        r is Ok <==> catalog_outcome(entries@) is Ok && is_switch_option(entries@, opt@),
        catalog_outcome(entries@) matches Err(g) ==> r == Err::<Vec<(String, String)>, ConfigError>(ConfigError::Catalog(g)),
        catalog_outcome(entries@) is Ok && entry_index(entries@, opt@) < 0
            ==> r == Err::<Vec<(String, String)>, ConfigError>(ConfigError::InvalidOption),
        catalog_outcome(entries@) is Ok && entry_index(entries@, opt@) >= 0 && !is_switch_option(entries@, opt@)
            ==> r == Err::<Vec<(String, String)>, ConfigError>(ConfigError::NotASwitch),
        r matches Ok(out) ==> exists|ds: Seq<Seq<char>>|
            ds.no_duplicates() && ds.to_set() == dependency_closure(catalog_model(entries@), opt@)
                && kv_view(out@) == upsert(#[trigger] upsert_all(kv_view(kvpairs@), ds, seq!['y']), opt@, seq!['y']),
        r matches Ok(out) ==> lookup(kv_view(out@), opt@) == Some(seq!['y']),
        r matches Ok(out) ==> forall|d: Seq<char>| #[trigger] dependency_closure(catalog_model(entries@), opt@).contains(d)
            ==> lookup(kv_view(out@), d) == Some(seq!['y']),
{
    proof {
        lemma_first_index(entry_names(entries@), opt@);
        if entry_names(entries@).contains(opt@) {
            let t = choose|t: int| 0 <= t < entry_names(entries@).len() && entry_names(entries@)[t] == opt@;
            assert(entry_names(entries@)[t] == opt@);
        }
        if entry_index(entries@, opt@) >= 0 {
            assert(entry_names(entries@)[entry_index(entries@, opt@)] == opt@);
        }
    }
    let mut kv = copy_pairs(kvpairs);
    if let Err(e) = enable_dependencies(opt, &mut kv, entries) {
        return Err(e);
    }
    let ghost mid = kv_view(kv@);
    if let Err(e) = set_switch(opt, Switch::Yes, &mut kv, entries) {
        return Err(e);
    }
    proof {
        lemma_upsert_lookup(mid, opt@, seq!['y'], opt@);
        assert forall|d: Seq<char>| #[trigger] dependency_closure(catalog_model(entries@), opt@).contains(d)
            implies lookup(kv_view(kv@), d) == Some(seq!['y']) by {
            lemma_upsert_lookup(mid, opt@, seq!['y'], d);
        }
    }
    Ok(kv)
}

/// Disables switch `opt` and every option that depends on it, directly or
/// not: switches hold `n` afterwards, other options are removed.
pub fn disable(opt: &str, kvpairs: &Vec<(String, String)>, entries: &[ConfigEntry]) -> (r: Result<Vec<(String, String)>, ConfigError>)
    ensures
        r is Ok <==> catalog_outcome(entries@) is Ok && is_switch_option(entries@, opt@),
        catalog_outcome(entries@) matches Err(g) ==> r == Err::<Vec<(String, String)>, ConfigError>(ConfigError::Catalog(g)),
        catalog_outcome(entries@) is Ok && entry_index(entries@, opt@) < 0
            ==> r == Err::<Vec<(String, String)>, ConfigError>(ConfigError::InvalidOption),
        catalog_outcome(entries@) is Ok && entry_index(entries@, opt@) >= 0 && !is_switch_option(entries@, opt@)
            ==> r == Err::<Vec<(String, String)>, ConfigError>(ConfigError::NotASwitch),
        r matches Ok(out) ==> exists|ds: Seq<Seq<char>>|
            ds.no_duplicates() && ds.to_set() == dependent_closure(catalog_model(entries@), opt@)
                && kv_view(out@) == upsert(#[trigger] disable_all(kv_view(kvpairs@), ds, entries@), opt@, seq!['n']),
        r matches Ok(out) ==> lookup(kv_view(out@), opt@) == Some(seq!['n']),
        r matches Ok(out) ==> forall|d: Seq<char>| #[trigger] dependent_closure(catalog_model(entries@), opt@).contains(d)
            && is_switch_option(entries@, d) ==> lookup(kv_view(out@), d) == Some(seq!['n']),
        r matches Ok(out) ==> forall|d: Seq<char>| #[trigger] dependent_closure(catalog_model(entries@), opt@).contains(d)
            && !is_switch_option(entries@, d) ==> !keys_of(kv_view(out@)).contains(d),
{
    proof {
        lemma_first_index(entry_names(entries@), opt@);
        if entry_names(entries@).contains(opt@) {
            let t = choose|t: int| 0 <= t < entry_names(entries@).len() && entry_names(entries@)[t] == opt@;
            assert(entry_names(entries@)[t] == opt@);
        }
        if entry_index(entries@, opt@) >= 0 {
            assert(entry_names(entries@)[entry_index(entries@, opt@)] == opt@);
        }
    }
    let mut kv = copy_pairs(kvpairs);
    if let Err(e) = disable_dependent(opt, &mut kv, entries) {
        return Err(e);
    }
    let ghost mid = kv_view(kv@);
    if let Err(e) = set_switch(opt, Switch::No, &mut kv, entries) {
        return Err(e);
    }
    proof {
        lemma_upsert_lookup(mid, opt@, seq!['n'], opt@);
        assert forall|d: Seq<char>| #[trigger] dependent_closure(catalog_model(entries@), opt@).contains(d)
            && is_switch_option(entries@, d) implies lookup(kv_view(kv@), d) == Some(seq!['n']) by {
            lemma_upsert_lookup(mid, opt@, seq!['n'], d);
        }
        assert forall|d: Seq<char>| #[trigger] dependent_closure(catalog_model(entries@), opt@).contains(d)
            && !is_switch_option(entries@, d) implies !keys_of(kv_view(kv@)).contains(d) by {
            lemma_upsert_lookup(mid, opt@, seq!['n'], d);
            lemma_lookup_none(mid, d);
            lemma_lookup_none(kv_view(kv@), d);
        }
    }
    Ok(kv)
}

/// Setting `opt` to `v` turns a switch off.
pub open spec fn turns_off(e: ConfigEntry, v: Seq<char>) -> bool {
    e.enttype is Switch && v == seq!['n']
}

/// Sets `opt` to `value` with surrounding white space removed. The value
/// must lie in the option's domain. Setting a switch to `n` disables every
/// option that depends on it, as `disable` does; any other value enables
/// every option it depends on, as `enable` does. The pair of `opt` is then
/// updated in place or appended.
pub fn set(opt: &str, value: &str, kvpairs: &Vec<(String, String)>, entries: &[ConfigEntry]) -> (r: Result<Vec<(String, String)>, ConfigError>)
    ensures
        entry_index(entries@, opt@) < 0 ==> r == Err::<Vec<(String, String)>, ConfigError>(ConfigError::InvalidOption),
        entry_index(entries@, opt@) >= 0 && !value_ok(entries@[entry_index(entries@, opt@)], trim(value@))
            ==> r == Err::<Vec<(String, String)>, ConfigError>(ConfigError::InvalidValue),
        entry_index(entries@, opt@) >= 0 && value_ok(entries@[entry_index(entries@, opt@)], trim(value@))
            && catalog_outcome(entries@) is Err ==> r == Err::<Vec<(String, String)>, ConfigError>(
            ConfigError::Catalog(catalog_outcome(entries@)->Err_0)),
        r is Ok <==> entry_index(entries@, opt@) >= 0 && value_ok(entries@[entry_index(entries@, opt@)], trim(value@))
            && catalog_outcome(entries@) is Ok,
        r matches Ok(out) ==> turns_off(entries@[entry_index(entries@, opt@)], trim(value@)) ==> exists|ds: Seq<Seq<char>>|
            ds.no_duplicates() && ds.to_set() == dependent_closure(catalog_model(entries@), opt@)
                && kv_view(out@) == upsert(#[trigger] disable_all(kv_view(kvpairs@), ds, entries@), opt@, trim(value@)),
        r matches Ok(out) ==> !turns_off(entries@[entry_index(entries@, opt@)], trim(value@)) ==> exists|ds: Seq<Seq<char>>|
            ds.no_duplicates() && ds.to_set() == dependency_closure(catalog_model(entries@), opt@)
                && kv_view(out@) == upsert(#[trigger] upsert_all(kv_view(kvpairs@), ds, seq!['y']), opt@, trim(value@)),
{
    let name = opt.to_owned();
    let p = match find_entry(entries, &name) {
        Some(p) => p,
        None => return Err(ConfigError::InvalidOption),
    };
    proof {
        assert(entry_names(entries@)[p as int] == opt@);
    }
    let v = trim_str(value);
    if let Err(e) = validate_value(v.as_str(), &entries[p]) {
        return Err(e);
    }
    let mut kv = copy_pairs(kvpairs);
    let off = entries[p].is_switch() && v == switch_string(Switch::No);
    let res = if off {
        disable_dependent(opt, &mut kv, entries)
    } else {
        enable_dependencies(opt, &mut kv, entries)
    };
    if let Err(e) = res {
        return Err(e);
    }
    upsert_pair(&mut kv, &name, v);
    Ok(kv)
}

} // verus!
