use vstd::prelude::*;

/// Text helpers on character sequences
pub mod text;
/// Dependency graph
pub mod graph;
/// Persisted key-value sets
pub mod kv;
/// Config manipulation
pub mod manipulate;
/// Config text parsing and rendering
pub mod parse;
/// Validation of an existing config
pub mod validate;
/// Config generation
pub mod generate;
/// Listing of options
pub mod list;
/// Verbosity of messages
pub mod logger;

pub use crate::list::ListOp;

use crate::text::strings;

verus! {

/// Vector of values, rendered as a comma separated list.
#[derive(Debug, PartialEq, Clone)]
pub struct DisplayVec<T>(pub Vec<T>);

impl<T> From<Vec<T>> for DisplayVec<T> {
    fn from(v: Vec<T>) -> Self {
        DisplayVec(v)
    }
}

impl<T> vstd::std_specs::convert::FromSpecImpl<Vec<T>> for DisplayVec<T> {
    open spec fn obeys_from_spec() -> bool {
        true
    }

    open spec fn from_spec(v: Vec<T>) -> Self {
        DisplayVec(v)
    }
}

/// State of a switch option.
#[derive(Debug, Clone, Copy, PartialEq, Eq, Structural)]
pub enum Switch {
    Yes,
    No,
}

/// Domain of an option, holding its default value.
#[derive(Debug, PartialEq, Clone)]
pub enum EntryType {
    Switch(Switch),
    String(String),
    Int(i32),
}

/// One option of the catalog.
#[derive(Debug, PartialEq, Clone)]
pub struct ConfigEntry {
    pub name: String,
    pub depends: DisplayVec<String>,
    pub enttype: EntryType,
    pub choices: Option<DisplayVec<String>>,
    pub help: String,
}

/// The identifiers an entry depends on.
pub open spec fn entry_deps(e: ConfigEntry) -> Seq<Seq<char>> {
    strings(e.depends.0@)
}

/// The graph model that a catalog describes: one node per entry, in order.
pub open spec fn catalog_model(es: Seq<ConfigEntry>) -> Seq<graph::NodeModel> {
    es.map_values(|e: ConfigEntry| (e.name@, entry_deps(e)))
}

} // verus!

verus! {

/// Text of a switch value: `y` for on, `n` for off.
pub open spec fn switch_text(s: Switch) -> Seq<char> {
    match s {
        Switch::Yes => seq!['y'],
        Switch::No => seq!['n'],
    }
}

/// Decimal digits of a natural number, most significant first.
pub open spec fn digits_of(n: nat) -> Seq<char>
    decreases n,
{
    if n < 10 {
        seq![digit_char(n)]
    } else {
        digits_of(n / 10).push(digit_char(n % 10))
    }
}

/// The character of a decimal digit.
pub open spec fn digit_char(d: nat) -> char {
    ((d + 48) as u8) as char
}

/// Decimal text of an integer, with a leading `-` when negative.
pub open spec fn decimal(i: int) -> Seq<char> {
    if i < 0 {
        seq!['-'] + digits_of((-i) as nat)
    } else {
        digits_of(i as nat)
    }
}

/// The default value of an entry, as it is written in a config file.
pub open spec fn default_text(t: EntryType) -> Seq<char> {
    match t {
        EntryType::Switch(s) => switch_text(s),
        EntryType::String(d) => d@,
        EntryType::Int(i) => decimal(i as int),
    }
}

/// Text of a switch value.
pub fn switch_string(s: Switch) -> (r: String)
    ensures
        r@ == switch_text(s),
{
    let mut r = String::new();
    match s {
        Switch::Yes => text::push_char(&mut r, 'y'),
        Switch::No => text::push_char(&mut r, 'n'),
    }
    assert(r@ =~= switch_text(s));
    r
}

fn push_digits(r: &mut String, n: u32)
    ensures
        final(r)@ == old(r)@ + digits_of(n as nat),
    decreases n,
{
    if n >= 10 {
        push_digits(r, n / 10);
    }
    let d: u8 = (n % 10) as u8;
    text::push_char(r, (d + 48) as char);
}

/// Decimal text of `i`.
pub fn decimal_string(i: i32) -> (r: String)
    ensures
        r@ == decimal(i as int),
{
    let mut r = String::new();
    if i < 0 {
        text::push_char(&mut r, '-');
        push_digits(&mut r, (0i64 - i as i64) as u32);
    } else {
        push_digits(&mut r, i as u32);
    }
    assert(r@ =~= decimal(i as int));
    r
}

} // verus!

verus! {

/// Why an operation on a config failed.
#[derive(Debug, Clone, Copy, PartialEq, Eq, Structural)]
pub enum ConfigError {
    /// The catalog does not form a consistent dependency graph.
    Catalog(graph::GraphError),
    /// The option is not in the catalog.
    InvalidOption,
    /// The option is not a switch.
    NotASwitch,
    /// The value is outside the option's domain.
    InvalidValue,
    /// A non-empty line of a config file holds no `=`.
    MalformedLine,
    /// An option depends on an option that is not a switch.
    NonSwitchDependency,
    /// A catalog entry names an unknown domain.
    InvalidEntryType,
    /// A catalog entry's default does not fit its domain.
    InvalidDefault,
}

/// The identifiers of the catalog's entries, in order.
pub open spec fn entry_names(es: Seq<ConfigEntry>) -> Seq<Seq<char>> {
    es.map_values(|e: ConfigEntry| e.name@)
}

/// Index of the first entry named `x`, or -1.
pub open spec fn entry_index(es: Seq<ConfigEntry>, x: Seq<char>) -> int {
    kv::first_index(entry_names(es), x)
}

/// The option named `x` exists and is a switch.
pub open spec fn is_switch_option(es: Seq<ConfigEntry>, x: Seq<char>) -> bool {
    entry_index(es, x) >= 0 && es[entry_index(es, x)].enttype is Switch
}

/// Index of the first entry named `x`.
pub fn find_entry(entries: &[ConfigEntry], x: &String) -> (r: Option<usize>)
    ensures
        r matches Some(p) ==> p == entry_index(entries@, x@) && p < entries@.len() && entries@[p as int].name@ == x@,
        r is None ==> entry_index(entries@, x@) == -1,
{
    let ghost ns = entry_names(entries@);
    let mut i: usize = 0;
    while i < entries.len()
        invariant
            i <= entries@.len(),
            ns == entry_names(entries@),
            forall|t: int| 0 <= t < i ==> ns[t] != x@,
        decreases entries@.len() - i,
    {
        if entries[i].name == *x {
            proof {
                assert(ns[i as int] == x@);
                kv::lemma_first_index_is(ns, x@, i as int);
            }
            return Some(i);
        }
        assert(ns[i as int] == entries@[i as int].name@);
        i = i + 1;
    }
    proof {
        kv::lemma_first_index(ns, x@);
        if kv::first_index(ns, x@) >= 0 {
            assert(ns[kv::first_index(ns, x@)] == x@);
        }
    }
    None
}

impl ConfigEntry {
    /// The default value, as written in a config file.
    pub fn default_value(&self) -> (r: String)
        ensures
            r@ == default_text(self.enttype),
    {
        match &self.enttype {
            EntryType::Switch(s) => switch_string(*s),
            EntryType::String(d) => d.clone(),
            EntryType::Int(i) => decimal_string(*i),
        }
    }

    /// The option is a switch.
    pub fn is_switch(&self) -> (r: bool)
        ensures
            r == self.enttype is Switch,
    {
        match &self.enttype {
            EntryType::Switch(_) => true,
            _ => false,
        }
    }

    /// Whether a switch is on by default; fails with `NotASwitch` for any
    /// other option.
    pub fn is_enabled_by_default(&self) -> (r: Result<bool, ConfigError>)
        ensures
            r == match self.enttype {
                EntryType::Switch(s) => Ok::<bool, ConfigError>(s == Switch::Yes),
                _ => Err(ConfigError::NotASwitch),
            },
    {
        match &self.enttype {
            EntryType::Switch(Switch::Yes) => Ok(true),
            EntryType::Switch(Switch::No) => Ok(false),
            _ => Err(ConfigError::NotASwitch),
        }
    }
}

} // verus!

verus! {

/// What the tool was asked to do, and where.
#[derive(Debug)]
pub struct State {
    /// Path to config specification
    pub spec: String,
    /// Path to config file
    pub config: String,
    /// Verbosity level
    pub verbosity: usize,
    /// Mode of operation
    pub mode: Mode,
}

/// Kinds of config that can be generated.
#[derive(Debug, Clone, Copy, PartialEq, Eq, Structural)]
pub enum ConfType {
    Defconfig,
}

/// Mode of operation.
#[derive(Debug)]
pub enum Mode {
    List { ops: Vec<ListOp> },
    Validate,
    Enable { option: String },
    Disable { option: String },
    SetValue { option: String, value: String },
    Generate { conftype: ConfType },
}

/// The highest verbosity level.
pub const MAX_VERBOSITY: usize = 3;

/// The verbosity level for `count` repetitions of the verbose flag.
pub fn clamp_verbosity(count: usize) -> (r: usize)
    ensures
        r == if count <= MAX_VERBOSITY { count } else { MAX_VERBOSITY },
{
    if count <= MAX_VERBOSITY {
        count
    } else {
        MAX_VERBOSITY
    }
}

/// The kind of config named `name`.
pub fn conf_type(name: &str) -> (r: Option<ConfType>)
    ensures
        r is Some <==> name@ == "defconfig"@,
        r matches Some(t) ==> t == ConfType::Defconfig,
{
    if name.to_owned() == "defconfig".to_owned() {
        Some(ConfType::Defconfig)
    } else {
        None
    }
}

/// The list operations that the flags of the `list` subcommand ask for:
/// every option when `all` is set; otherwise the shown option and then the
/// dependency listing, of those given; `None` when no flag is given.
pub fn list_ops(show: Option<String>, all: bool, deps: Option<String>) -> (r: Option<Vec<ListOp>>)
    ensures
        r is None <==> !all && show is None && deps is None,
        all ==> (r matches Some(ops) && ops@.len() == 1 && ops@[0] is All),
        !all ==> (r matches Some(ops) ==> ops@.len() == (if show is Some { 1int } else { 0 }) + (if deps is Some { 1int } else { 0 })
            && (show matches Some(s) ==> ops@[0] == ListOp::Show(s))
            && (deps matches Some(d) ==> ops@[ops@.len() - 1] == ListOp::Dependencies(d))),
{
    if all {
        let mut ops: Vec<ListOp> = Vec::new();
        ops.push(ListOp::All);
        return Some(ops);
    }
    if show.is_none() && deps.is_none() {
        return None;
    }
    let mut ops: Vec<ListOp> = Vec::new();
    if let Some(s) = show {
        ops.push(ListOp::Show(s));
    }
    if let Some(d) = deps {
        ops.push(ListOp::Dependencies(d));
    }
    Some(ops)
}

} // verus!

verus! {

/// A default value as a catalog document gives it.
#[derive(Debug, Clone, PartialEq)]
pub enum DefaultValue {
    /// A text.
    Text(String),
    /// An integer.
    Integer(i64),
    /// Anything else.
    Other,
}

/// The domain named `kind` with default `default`, as a catalog entry
/// declares them: `InvalidEntryType` for an unknown domain, `InvalidDefault`
/// for a default that does not fit it.
pub open spec fn declared_type(kind: Seq<char>, default: DefaultValue) -> Result<EntryType, ConfigError> {
    if kind == "integer"@ {
        match default {
            DefaultValue::Integer(n) => if i32::MIN <= n <= i32::MAX {
                Ok(EntryType::Int(n as i32))
            } else {
                Err(ConfigError::InvalidDefault)
            },
            _ => Err(ConfigError::InvalidDefault),
        }
    } else if kind == "string"@ {
        match default {
            DefaultValue::Text(t) => Ok(EntryType::String(t)),
            _ => Err(ConfigError::InvalidDefault),
        }
    } else if kind == "switch"@ {
        match default {
            DefaultValue::Text(t) => if t@ == seq!['y'] {
                Ok(EntryType::Switch(Switch::Yes))
            } else if t@ == seq!['n'] {
                Ok(EntryType::Switch(Switch::No))
            } else {
                Err(ConfigError::InvalidDefault)
            },
            _ => Err(ConfigError::InvalidDefault),
        }
    } else {
        Err(ConfigError::InvalidEntryType)
    }
}

impl EntryType {
    /// The domain named `kind` (`integer`, `string` or `switch`) with
    /// default `default`.
    pub fn declared(kind: &str, default: &DefaultValue) -> (r: Result<EntryType, ConfigError>)
        ensures
            r == declared_type(kind@, *default),
    {
        let k = kind.to_owned();
        if k == "integer".to_owned() {
            match default {
                DefaultValue::Integer(n) => {
                    if i32::MIN as i64 <= *n && *n <= i32::MAX as i64 {
                        Ok(EntryType::Int(*n as i32))
                    } else {
                        Err(ConfigError::InvalidDefault)
                    }
                },
                _ => Err(ConfigError::InvalidDefault),
            }
        } else if k == "string".to_owned() {
            match default {
                DefaultValue::Text(t) => Ok(EntryType::String(t.clone())),
                _ => Err(ConfigError::InvalidDefault),
            }
        } else if k == "switch".to_owned() {
            match default {
                DefaultValue::Text(t) => {
                    if *t == switch_string(Switch::Yes) {
                        Ok(EntryType::Switch(Switch::Yes))
                    } else if *t == switch_string(Switch::No) {
                        Ok(EntryType::Switch(Switch::No))
                    } else {
                        Err(ConfigError::InvalidDefault)
                    }
                },
                _ => Err(ConfigError::InvalidDefault),
            }
        } else {
            Err(ConfigError::InvalidEntryType)
        }
    }
}

} // verus!
