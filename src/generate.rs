use vstd::prelude::*;
use crate::graph::{dependency_closure, NodeModel};
use crate::kv::{kv_view, KvModel};
use crate::manipulate::{catalog_graph, catalog_outcome, lemma_catalog_names};
use crate::text::strings;
use crate::{
    catalog_model, default_text, entry_index, entry_names, find_entry, is_switch_option, ConfigEntry,
    ConfigError, EntryType, Switch,
};

verus! {

/// The option named `d` is a switch that is on by default.
pub open spec fn on_by_default(es: Seq<ConfigEntry>, d: Seq<char>) -> bool {
    entry_index(es, d) >= 0 && es[entry_index(es, d)].enttype == EntryType::Switch(Switch::Yes)
}

/// Every transitive dependency of every option is a switch.
pub open spec fn switch_dependencies_only(es: Seq<ConfigEntry>, m: Seq<NodeModel>) -> bool {
    forall|i: int, d: Seq<char>| 0 <= i < es.len() && #[trigger] dependency_closure(m, es[i].name@).contains(d)
        ==> is_switch_option(es, d)
}

/// The default pairs of the first `n` entries: an entry is listed with its
/// default value when every option it depends on is a switch that is on by
/// default.
pub open spec fn default_pairs(es: Seq<ConfigEntry>, m: Seq<NodeModel>, n: int) -> KvModel
    decreases n,
{
    if n <= 0 {
        Seq::empty()
    } else {
        let prev = default_pairs(es, m, n - 1);
        let e = es[n - 1];
        if forall|d: Seq<char>| #[trigger] dependency_closure(m, e.name@).contains(d) ==> on_by_default(es, d) {
            prev.push((e.name@, default_text(e.enttype)))
        } else {
            prev
        }
    }
}

/// The default config of a catalog, in catalog order. Fails when the
/// catalog is inconsistent, or with `NonSwitchDependency` when an option
/// depends on an option that is not a switch.
pub fn defconfig(entries: &[ConfigEntry]) -> (r: Result<Vec<(String, String)>, ConfigError>)
    ensures
        catalog_outcome(entries@) is Err ==> r == Err::<Vec<(String, String)>, ConfigError>(
            ConfigError::Catalog(catalog_outcome(entries@)->Err_0)),
        catalog_outcome(entries@) is Ok && !switch_dependencies_only(entries@, catalog_model(entries@))
            ==> r == Err::<Vec<(String, String)>, ConfigError>(ConfigError::NonSwitchDependency),
        r is Ok <==> catalog_outcome(entries@) is Ok && switch_dependencies_only(entries@, catalog_model(entries@)),
        r matches Ok(out) ==> kv_view(out@) == default_pairs(entries@, catalog_model(entries@), entries@.len() as int),
{
    proof {
        lemma_catalog_names(entries@);
    }
    let graph = match catalog_graph(entries) {
        Ok(g) => g,
        Err(e) => return Err(ConfigError::Catalog(e)),
    };
    let ghost es = entries@;
    let ghost m = graph@;
    let mut kvpairs: Vec<(String, String)> = Vec::new();
    let mut i: usize = 0;
    while i < entries.len()
        invariant
            i <= entries@.len(),
            es == entries@,
            catalog_outcome(es) is Ok,
            m == catalog_model(es),
            m == graph@,
            graph.ready(),
            crate::graph::names_of(m) == entry_names(es),
            kv_view(kvpairs@) == default_pairs(es, m, i as int),
            forall|ii: int, d: Seq<char>| 0 <= ii < i && #[trigger] dependency_closure(m, es[ii].name@).contains(d)
                ==> is_switch_option(es, d),
        decreases entries@.len() - i,
    {
        let ent = &entries[i];
        proof {
            assert(entry_names(es)[i as int] == ent.name@);
        }
        let deps = match graph.dependencies_of(ent.name.as_str()) {
            Ok(d) => d,
            Err(_) => {
                proof {
                    assert(false);
                }
                return Err(ConfigError::InvalidOption);
            },
        };
        let ghost ds = strings(deps@);
        let mut enable = true;
        let mut j: usize = 0;
        while j < deps.len()
            invariant
                i < entries@.len(),
                es == entries@,
                catalog_outcome(es) is Ok,
                m == catalog_model(es),
                j <= deps@.len(),
                ds == strings(deps@),
                crate::graph::names_of(m) == entry_names(es),
                ds.to_set() == dependency_closure(m, es[i as int].name@),
                enable <==> forall|jj: int| 0 <= jj < j ==> on_by_default(es, #[trigger] ds[jj]),
                forall|jj: int| 0 <= jj < j ==> is_switch_option(es, #[trigger] ds[jj]),
            decreases deps@.len() - j,
        {
            proof {
                assert(ds.to_set().contains(ds[j as int]));
                let (s, k) = choose|s: int, k: int|
                    0 <= s < m.len() && 0 <= k < m.len() && m[s].0 == es[i as int].name@ && m[k].0 == ds[j as int]
                        && #[trigger] crate::graph::reaches(m, true, s, k);
                assert(entry_names(es)[k] == ds[j as int]);
                crate::kv::lemma_first_index(entry_names(es), ds[j as int]);
            }
            let p = match find_entry(entries, &deps[j]) {
                Some(p) => p,
                None => {
                    proof {
                        assert(entry_names(es)[crate::kv::first_index(entry_names(es), ds[j as int])] == ds[j as int]);
                    }
                    return Err(ConfigError::InvalidOption);
                },
            };
            if !entries[p].is_switch() {
                proof {
                    assert(dependency_closure(m, es[i as int].name@).contains(ds[j as int]));
                    assert(!is_switch_option(es, ds[j as int]));
                }
                return Err(ConfigError::NonSwitchDependency);
            }
            if let Ok(false) = entries[p].is_enabled_by_default() {
                enable = false;
            }
            j = j + 1;
        }
        proof {
            assert forall|d: Seq<char>| #[trigger] dependency_closure(m, es[i as int].name@).contains(d)
                implies is_switch_option(es, d) && (enable ==> on_by_default(es, d)) by {
                assert(ds.to_set().contains(d));
                let jj = choose|jj: int| 0 <= jj < ds.len() && ds[jj] == d;
                assert(is_switch_option(es, ds[jj]));
                if enable {
                    assert(on_by_default(es, ds[jj]));
                }
            }
            if !enable {
                let jj = choose|jj: int| 0 <= jj < j && !on_by_default(es, #[trigger] ds[jj]);
                assert(ds.to_set().contains(ds[jj]));
                assert(dependency_closure(m, es[i as int].name@).contains(ds[jj]));
            }
        }
        let ghost before = kv_view(kvpairs@);
        if enable {
            kvpairs.push((ent.name.clone(), ent.default_value()));
            assert(kv_view(kvpairs@) =~= before.push((ent.name@, default_text(ent.enttype))));
        }
        i = i + 1;
    }
    Ok(kvpairs)
}

} // verus!
