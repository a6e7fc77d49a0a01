use vstd::prelude::*;
use crate::graph::dependency_closure;
use crate::manipulate::{catalog_graph, catalog_outcome, lemma_catalog_names};
use crate::parse::push_text;
use crate::text::strings;
use crate::{
    catalog_model, default_text, entry_index, entry_names, find_entry,
    ConfigEntry, ConfigError, DisplayVec, EntryType,
};

verus! {

/// What to list.
#[derive(Debug)]
pub enum ListOp {
    /// One option, by name.
    Show(String),
    /// Every option.
    All,
    /// The dependencies of one option, direct or not.
    Dependencies(String),
}

/// The texts of `s` separated by `, `.
pub open spec fn joined(s: Seq<Seq<char>>) -> Seq<char>
    decreases s.len(),
{
    if s.len() == 0 {
        Seq::empty()
    } else if s.len() == 1 {
        s[0]
    } else {
        joined(s.drop_last()) + ", "@ + s.last()
    }
}

/// Name of the domain of an entry.
pub open spec fn domain_name(t: EntryType) -> Seq<char> {
    match t {
        EntryType::Switch(_) => "switch"@,
        EntryType::String(_) => "string"@,
        EntryType::Int(_) => "integer"@,
    }
}

/// The allowed values of an entry, as listed.
pub open spec fn choices_text(e: ConfigEntry) -> Seq<char> {
    match e.choices {
        Some(c) => joined(strings(c.0@)),
        None => if e.enttype is Switch {
            "y, n"@
        } else {
            "Any "@ + domain_name(e.enttype)
        },
    }
}

/// The description of an entry: its name, dependencies, domain, choices,
/// default and help, one per line.
pub open spec fn description(e: ConfigEntry) -> Seq<char> {
    e.name@ + ":\n"@
        + "  depends: "@ + joined(strings(e.depends.0@)) + "\n"@
        + "  type: "@ + domain_name(e.enttype) + "\n"@
        + "  choices: "@ + choices_text(e) + "\n"@
        + "  default: "@ + default_text(e.enttype) + "\n"@
        + "  help: "@ + e.help@
}

impl DisplayVec<String> {
    /// The elements separated by `, `.
    pub fn joined(&self) -> (r: String)
        ensures
            r@ == joined(strings(self.0@)),
    {
        let ghost s = strings(self.0@);
        let mut r = String::new();
        let mut i: usize = 0;
        while i < self.0.len()
            invariant
                i <= self.0@.len(),
                s == strings(self.0@),
                r@ == joined(s.take(i as int)),
            decreases self.0@.len() - i,
        {
            assert(s.take(i + 1).drop_last() =~= s.take(i as int));
            assert(s.take(i + 1).last() == self.0@[i as int]@);
            if i > 0 {
                push_text(&mut r, ", ");
            } else {
                assert(r@ =~= Seq::<char>::empty());
            }
            push_text(&mut r, self.0[i].as_str());
            proof {
                if i == 0 {
                    assert(s.take(1)[0] == self.0@[0]@);
                    assert(r@ =~= Seq::<char>::empty() + self.0@[0]@);
                }
            }
            i = i + 1;
        }
        assert(s.take(i as int) =~= s);
        r
    }
}

impl ConfigEntry {
    /// The description of the entry.
    pub fn describe(&self) -> (r: String)
        ensures
            r@ == description(*self),
    {
        let mut r = String::new();
        push_text(&mut r, self.name.as_str());
        push_text(&mut r, ":\n");
        push_text(&mut r, "  depends: ");
        push_text(&mut r, self.depends.joined().as_str());
        push_text(&mut r, "\n");
        push_text(&mut r, "  type: ");
        let tname = match &self.enttype {
            EntryType::Switch(_) => "switch",
            EntryType::String(_) => "string",
            EntryType::Int(_) => "integer",
        };
        push_text(&mut r, tname);
        push_text(&mut r, "\n");
        push_text(&mut r, "  choices: ");
        match &self.choices {
            Some(c) => push_text(&mut r, c.joined().as_str()),
            None => match &self.enttype {
                EntryType::Switch(_) => push_text(&mut r, "y, n"),
                _ => {
                    push_text(&mut r, "Any ");
                    push_text(&mut r, tname);
                },
            },
        }
        push_text(&mut r, "\n");
        push_text(&mut r, "  default: ");
        push_text(&mut r, self.default_value().as_str());
        push_text(&mut r, "\n");
        push_text(&mut r, "  help: ");
        push_text(&mut r, self.help.as_str());
        assert(r@ =~= description(*self));
        r
    }
}

/// The description of the option named `option`.
pub fn show(option: &str, entries: &[ConfigEntry]) -> (r: Result<String, ConfigError>)
    ensures
        entry_index(entries@, option@) < 0 ==> r == Err::<String, ConfigError>(ConfigError::InvalidOption),
        entry_index(entries@, option@) >= 0 ==> (r matches Ok(t)
            && t@ == description(entries@[entry_index(entries@, option@)])),
{
    let name = option.to_owned();
    match find_entry(entries, &name) {
        Some(p) => Ok(entries[p].describe()),
        None => Err(ConfigError::InvalidOption),
    }
}

/// The descriptions of the entries of `es`, each ended by a line break.
pub open spec fn descriptions(es: Seq<ConfigEntry>) -> Seq<char>
    decreases es.len(),
{
    if es.len() == 0 {
        Seq::empty()
    } else {
        descriptions(es.drop_last()) + description(es.last()) + "\n"@
    }
}

/// The descriptions of every option, in catalog order.
pub fn show_all(entries: &Vec<ConfigEntry>) -> (r: String)
    ensures
        r@ == descriptions(entries@),
{
    let mut r = String::new();
    let mut i: usize = 0;
    while i < entries.len()
        invariant
            i <= entries@.len(),
            r@ == descriptions(entries@.take(i as int)),
        decreases entries@.len() - i,
    {
        assert(entries@.take(i + 1).drop_last() =~= entries@.take(i as int));
        push_text(&mut r, entries[i].describe().as_str());
        push_text(&mut r, "\n");
        i = i + 1;
    }
    assert(entries@.take(i as int) =~= entries@);
    r
}

/// The listing of dependencies `ds` of option `option`: a heading line, then
/// one indented line per dependency, or `None`.
pub open spec fn dependency_listing(option: Seq<char>, ds: Seq<Seq<char>>) -> Seq<char> {
    option + ":\n"@ + if ds.len() == 0 {
        "  None\n"@
    } else {
        indented(ds)
    }
}

/// One indented line per text.
pub open spec fn indented(ds: Seq<Seq<char>>) -> Seq<char>
    decreases ds.len(),
{
    if ds.len() == 0 {
        Seq::empty()
    } else {
        indented(ds.drop_last()) + "  "@ + ds.last() + "\n"@
    }
}

/// The listing of every dependency of `option`, direct or not, in
/// traversal order.
pub fn dependencies(option: &str, entries: &[ConfigEntry]) -> (r: Result<String, ConfigError>)
    ensures
        catalog_outcome(entries@) is Err ==> r == Err::<String, ConfigError>(
            ConfigError::Catalog(catalog_outcome(entries@)->Err_0)),
        catalog_outcome(entries@) is Ok && !entry_names(entries@).contains(option@)
            ==> r == Err::<String, ConfigError>(ConfigError::InvalidOption),
        r is Ok <==> catalog_outcome(entries@) is Ok && entry_names(entries@).contains(option@),
        r matches Ok(t) ==> exists|ds: Seq<Seq<char>>|
            ds.no_duplicates() && ds.to_set() == dependency_closure(catalog_model(entries@), option@)
                && t@ == #[trigger] dependency_listing(option@, ds),
{
    proof {
        lemma_catalog_names(entries@);
    }
    let graph = match catalog_graph(entries) {
        Ok(g) => g,
        Err(e) => return Err(ConfigError::Catalog(e)),
    };
    let deps = match graph.dependencies_of(option) {
        Ok(d) => d,
        Err(_) => return Err(ConfigError::InvalidOption),
    };
    let ghost ds = strings(deps@);
    let mut r = String::new();
    push_text(&mut r, option);
    push_text(&mut r, ":\n");
    let ghost head = r@;
    if deps.len() == 0 {
        push_text(&mut r, "  None\n");
    } else {
        let mut i: usize = 0;
        while i < deps.len()
            invariant
                i <= deps@.len(),
                ds == strings(deps@),
                r@ == head + indented(ds.take(i as int)),
            decreases deps@.len() - i,
        {
            assert(ds.take(i + 1).drop_last() =~= ds.take(i as int));
            push_text(&mut r, "  ");
            push_text(&mut r, deps[i].as_str());
            push_text(&mut r, "\n");
            assert(r@ =~= head + indented(ds.take(i + 1)));
            i = i + 1;
        }
        assert(ds.take(i as int) =~= ds);
    }
    assert(r@ =~= dependency_listing(option@, ds));
    Ok(r)
}

} // verus!
