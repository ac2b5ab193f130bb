//! Configuration model: monitors, profiles, their values and validation.
//!
//! A configuration is two documents: a set of named monitor capability
//! records and a set of named launch profiles.  Profiles may reference
//! monitors by name and carry compositor options, environment variables and
//! a list of variable names to unset.  Loading validates environment
//! variable names and monitor references; resolution merges a profile with
//! its monitor into a [`crate::profile::ResolvedProfile`].

use vstd::prelude::*;
use vstd::string::StringExecFns;

use crate::assoc::{
    alist_get, alist_sort_keys, alist_upsert, canon, clone_strings, contains_key, keys_distinct,
    lemma_canon_entries, lemma_map_of_absent, lemma_map_of_dom, lemma_map_of_get_distinct, map_of,
    pview,
};
use crate::numfmt::{i64_dec_string, int_str};

verus! {

/// Value of a compositor option: a flag, a number, or free text.
#[derive(Debug)]
pub enum OptionValue {
    Bool(bool),
    Int(i64),
    Text(String),
}

/// Mathematical value of an [`OptionValue`].
pub enum OptionValueView {
    Bool(bool),
    Int(int),
    Text(Seq<char>),
}

impl View for OptionValue {
    type V = OptionValueView;

    open spec fn view(&self) -> OptionValueView {
        match self {
            OptionValue::Bool(b) => OptionValueView::Bool(*b),
            OptionValue::Int(i) => OptionValueView::Int(*i as int),
            OptionValue::Text(s) => OptionValueView::Text(s@),
        }
    }
}

/// The text an option value shows on a command line.
pub open spec fn option_value_text(v: OptionValueView) -> Seq<char> {
    match v {
        OptionValueView::Bool(b) => if b {
            "true"@
        } else {
            "false"@
        },
        OptionValueView::Int(i) => int_str(i),
        OptionValueView::Text(s) => s,
    }
}

impl OptionValue {
    /// A copy with the same value.
    pub fn duplicate(&self) -> (r: OptionValue)
        ensures
            r@ == self@,
    {
        match self {
            OptionValue::Bool(b) => OptionValue::Bool(*b),
            OptionValue::Int(i) => OptionValue::Int(*i),
            OptionValue::Text(s) => OptionValue::Text(s.clone()),
        }
    }

    /// The text this value shows on a command line.
    pub fn display_string(&self) -> (r: String)
        ensures
            r@ == option_value_text(self@),
    {
        match self {
            OptionValue::Bool(b) => if *b {
                "true".to_owned()
            } else {
                "false".to_owned()
            },
            OptionValue::Int(i) => i64_dec_string(*i),
            OptionValue::Text(s) => s.clone(),
        }
    }
}

/// Value of a profile environment variable: a number or free text.
#[derive(Debug)]
pub enum EnvValue {
    Int(i64),
    Text(String),
}

/// Mathematical value of an [`EnvValue`].
pub enum EnvValueView {
    Int(int),
    Text(Seq<char>),
}

impl View for EnvValue {
    type V = EnvValueView;

    open spec fn view(&self) -> EnvValueView {
        match self {
            EnvValue::Int(i) => EnvValueView::Int(*i as int),
            EnvValue::Text(s) => EnvValueView::Text(s@),
        }
    }
}

/// The text an environment value takes in the environment.
pub open spec fn env_value_text(v: EnvValueView) -> Seq<char> {
    match v {
        EnvValueView::Int(i) => int_str(i),
        EnvValueView::Text(s) => s,
    }
}

impl EnvValue {
    /// The text this value takes in the environment.
    pub fn display_string(&self) -> (r: String)
        ensures
            r@ == env_value_text(self@),
    {
        match self {
            EnvValue::Int(i) => i64_dec_string(*i),
            EnvValue::Text(s) => s.clone(),
        }
    }
}

/// A named display's capabilities.
#[derive(Debug, Clone, Copy, PartialEq, Eq, Structural)]
#[allow(non_snake_case)]
pub struct MonitorDef {
    pub width: u32,
    pub height: u32,
    pub refreshRate: u32,
    pub vrr: bool,
    pub hdr: bool,
    pub primary: bool,
}

impl View for MonitorDef {
    type V = MonitorDef;

    open spec fn view(&self) -> MonitorDef {
        *self
    }
}

/// The set of configured monitors, as name/definition pairs.
#[derive(Debug)]
pub struct MonitorsConfig {
    pub monitors: Vec<(String, MonitorDef)>,
}

impl View for MonitorsConfig {
    type V = Seq<(Seq<char>, MonitorDef)>;

    open spec fn view(&self) -> Seq<(Seq<char>, MonitorDef)> {
        pview(self.monitors@)
    }
}

/// A named launch profile, as loaded from the profiles document.
#[derive(Debug)]
pub struct ProfileDef {
    pub monitor: Option<String>,
    pub binary: String,
    pub use_hdr: Option<bool>,
    pub use_wsi: Option<bool>,
    pub options: Vec<(String, OptionValue)>,
    pub environment: Vec<(String, EnvValue)>,
    pub unset: Vec<String>,
}

/// Mathematical value of a [`ProfileDef`].
pub struct ProfileDefView {
    pub monitor: Option<Seq<char>>,
    pub binary: Seq<char>,
    pub use_hdr: Option<bool>,
    pub use_wsi: Option<bool>,
    pub options: Seq<(Seq<char>, OptionValueView)>,
    pub environment: Seq<(Seq<char>, EnvValueView)>,
    pub unset: Seq<Seq<char>>,
}

impl View for ProfileDef {
    type V = ProfileDefView;

    open spec fn view(&self) -> ProfileDefView {
        ProfileDefView {
            monitor: match self.monitor {
                Some(s) => Some(s@),
                None => None,
            },
            binary: self.binary@,
            use_hdr: self.use_hdr,
            use_wsi: self.use_wsi,
            options: pview(self.options@),
            environment: pview(self.environment@),
            unset: self.unset@.map_values(|s: String| s@),
        }
    }
}

/// A copy of an option list, value for value.
pub fn duplicate_options(v: &Vec<(String, OptionValue)>) -> (r: Vec<(String, OptionValue)>)
    ensures
        pview(r@) == pview(v@),
{
    let mut r: Vec<(String, OptionValue)> = Vec::new();
    let mut i: usize = 0;
    while i < v.len()
        invariant
            i <= v.len(),
            pview(r@) == pview(v@).take(i as int),
        decreases v.len() - i,
    {
        let ghost before = pview(r@);
        r.push((v[i].0.clone(), v[i].1.duplicate()));
        proof {
            assert(pview(r@) =~= before.push((v@[i as int].0@, v@[i as int].1@)));
            assert(pview(r@) =~= pview(v@).take(i + 1));
        }
        i = i + 1;
    }
    proof {
        assert(pview(v@).take(v@.len() as int) =~= pview(v@));
    }
    r
}

/// The compositor binary a profile runs when it names none.
pub fn default_binary() -> (r: String)
    ensures
        r@ == "gamescope"@,
{
    "gamescope".to_owned()
}

/// The set of configured profiles, as name/definition pairs.
#[derive(Debug)]
pub struct ProfilesConfig {
    pub profiles: Vec<(String, ProfileDef)>,
}

impl View for ProfilesConfig {
    type V = Seq<(Seq<char>, ProfileDefView)>;

    open spec fn view(&self) -> Seq<(Seq<char>, ProfileDefView)> {
        pview(self.profiles@)
    }
}

/// An error in the configuration or in a lookup against it.
#[derive(Debug)]
pub enum ConfigError {
    /// A profile of this name does not exist.
    UnknownProfile { name: String },
    /// A monitor of this name does not exist.
    UnknownMonitor { name: String },
    /// No monitor is flagged primary and the profile names none.
    NoPrimaryMonitor,
    /// A profile references a monitor that does not exist.
    UnknownMonitorRef { profile: String, monitor: String },
    /// A profile holds environment or unset names that are not valid
    /// variable names; each offending entry is listed.
    InvalidEnvNames { profile: String, entries: Vec<String> },
    /// More than one monitor is flagged primary; the first two are named.
    MultiplePrimaryMonitors { first: String, second: String },
}

/// Mathematical value of a [`ConfigError`].
pub enum ConfigErrorView {
    UnknownProfile(Seq<char>),
    UnknownMonitor(Seq<char>),
    NoPrimaryMonitor,
    UnknownMonitorRef(Seq<char>, Seq<char>),
    InvalidEnvNames(Seq<char>, Seq<Seq<char>>),
    MultiplePrimaryMonitors(Seq<char>, Seq<char>),
}

impl View for ConfigError {
    type V = ConfigErrorView;

    open spec fn view(&self) -> ConfigErrorView {
        match self {
            ConfigError::UnknownProfile { name } => ConfigErrorView::UnknownProfile(name@),
            ConfigError::UnknownMonitor { name } => ConfigErrorView::UnknownMonitor(name@),
            ConfigError::NoPrimaryMonitor => ConfigErrorView::NoPrimaryMonitor,
            ConfigError::UnknownMonitorRef { profile, monitor } => ConfigErrorView::UnknownMonitorRef(
                profile@,
                monitor@,
            ),
            ConfigError::InvalidEnvNames { profile, entries } => ConfigErrorView::InvalidEnvNames(
                profile@,
                entries@.map_values(|s: String| s@),
            ),
            ConfigError::MultiplePrimaryMonitors { first, second } => ConfigErrorView::MultiplePrimaryMonitors(
                first@,
                second@,
            ),
        }
    }
}

impl MonitorsConfig {
    /// Looks a monitor up by name.
    pub fn get(&self, name: &str) -> (r: Result<&MonitorDef, ConfigError>)
        ensures
            match r {
                Ok(m) => map_of(self@).contains_key(name@) && map_of(self@)[name@] == *m,
                Err(e) => !map_of(self@).contains_key(name@) && e@
                    == ConfigErrorView::UnknownMonitor(name@),
            },
    {
        match alist_get(&self.monitors, name) {
            Some(m) => Ok(m),
            None => Err(ConfigError::UnknownMonitor { name: name.to_owned() }),
        }
    }

    /// Finds the first monitor flagged primary.
    pub fn default_monitor(&self) -> (r: Result<(String, MonitorDef), ConfigError>)
        ensures
            match r {
                Ok(p) => first_primary(self@) == Some((p.0@, p.1)),
                Err(e) => first_primary(self@) is None && e@ == ConfigErrorView::NoPrimaryMonitor,
            },
    {
        let mut i: usize = 0;
        while i < self.monitors.len()
            invariant
                i <= self.monitors.len(),
                forall|j: int| 0 <= j < i ==> !self@[j].1.primary,
            decreases self.monitors.len() - i,
        {
            if self.monitors[i].1.primary {
                proof {
                    assert(self@[i as int] == (self.monitors@[i as int].0@,
                    self.monitors@[i as int].1));
                    lemma_first_primary_at(self@, i as int);
                }
                return Ok((self.monitors[i].0.clone(), self.monitors[i].1));
            }
            proof {
                assert(self@[i as int].1 == self.monitors@[i as int].1);
            }
            i = i + 1;
        }
        proof {
            lemma_first_primary_none(self@);
        }
        Err(ConfigError::NoPrimaryMonitor)
    }
}

/// The first monitor flagged primary, in the order the monitors document
/// lists them.
pub open spec fn first_primary(s: Seq<(Seq<char>, MonitorDef)>) -> Option<(Seq<char>, MonitorDef)>
    decreases s.len(),
{
    if s.len() == 0 {
        None
    } else if s[0].1.primary {
        Some(s[0])
    } else {
        first_primary(s.skip(1))
    }
}

/// The first primary monitor is the one a scan stops at.
pub proof fn lemma_first_primary_at(s: Seq<(Seq<char>, MonitorDef)>, i: int)
    requires
        0 <= i < s.len(),
        s[i].1.primary,
        forall|j: int| 0 <= j < i ==> !s[j].1.primary,
    ensures
        first_primary(s) == Some(s[i]),
    decreases i,
{
    if i == 0 {
    } else {
        assert(!s[0].1.primary);
        let t = s.skip(1);
        assert(t[i - 1] == s[i]);
        assert(forall|j: int| 0 <= j < i - 1 ==> t[j] == s[j + 1]);
        lemma_first_primary_at(t, i - 1);
    }
}

/// Without a primary monitor the scan finds none.
pub proof fn lemma_first_primary_none(s: Seq<(Seq<char>, MonitorDef)>)
    requires
        forall|j: int| 0 <= j < s.len() ==> !s[j].1.primary,
    ensures
        first_primary(s) is None,
    decreases s.len(),
{
    if s.len() > 0 {
        let t = s.skip(1);
        assert(forall|j: int| 0 <= j < t.len() ==> t[j] == s[j + 1]);
        lemma_first_primary_none(t);
    }
}

/// An ASCII letter.
pub open spec fn is_ascii_letter(c: char) -> bool {
    (65 <= c as int && c as int <= 90) || (97 <= c as int && c as int <= 122)
}

/// An ASCII decimal digit.
pub open spec fn is_ascii_digit_char(c: char) -> bool {
    48 <= c as int && c as int <= 57
}

/// A valid environment variable name: non-empty, an ASCII letter or
/// underscore first, ASCII letters, digits and underscores after.
pub open spec fn is_env_name_valid(s: Seq<char>) -> bool {
    &&& s.len() > 0
    &&& (is_ascii_letter(s[0]) || s[0] == '_')
    &&& (forall|i: int|
        1 <= i < s.len() ==> is_ascii_letter(s[i]) || is_ascii_digit_char(s[i]) || s[i] == '_')
}

/// Decides whether a string is a valid environment variable name.
pub fn is_valid_env_var_name(name: &str) -> (r: bool)
    ensures
        r == is_env_name_valid(name@),
{
    let len = name.unicode_len();
    if len == 0 {
        return false;
    }
    let first = name.get_char(0);
    let f = first as u32;
    if !((65 <= f && f <= 90) || (97 <= f && f <= 122) || first == '_') {
        return false;
    }
    let mut i: usize = 1;
    while i < len
        invariant
            1 <= i <= len,
            len == name@.len(),
            forall|j: int|
                1 <= j < i ==> is_ascii_letter(name@[j]) || is_ascii_digit_char(name@[j])
                    || name@[j] == '_',
        decreases len - i,
    {
        let c = name.get_char(i);
        let u = c as u32;
        if !((65 <= u && u <= 90) || (97 <= u && u <= 122) || (48 <= u && u <= 57) || c == '_') {
            return false;
        }
        i = i + 1;
    }
    true
}

/// The offending entries among a list of names, each wrapped in a tag and
/// quotes, in the order the names appear.
pub open spec fn invalid_marked(names: Seq<Seq<char>>, tag: Seq<char>) -> Seq<Seq<char>>
    decreases names.len(),
{
    if names.len() == 0 {
        Seq::empty()
    } else {
        let rest = invalid_marked(names.drop_last(), tag);
        if is_env_name_valid(names.last()) {
            rest
        } else {
            rest.push(tag + seq!['\''] + names.last() + seq!['\''])
        }
    }
}

/// Every name in the list is a valid environment variable name.
pub open spec fn all_names_valid(names: Seq<Seq<char>>) -> bool {
    forall|i: int| 0 <= i < names.len() ==> is_env_name_valid(names[i])
}

/// The entries the validation of one profile reports: offending environment
/// keys first, then offending unset entries.
pub open spec fn invalid_name_entries(env_keys: Seq<Seq<char>>, unset: Seq<Seq<char>>) -> Seq<
    Seq<char>,
> {
    invalid_marked(env_keys, "environment key "@) + invalid_marked(unset, "unset entry "@)
}

/// With every name valid nothing is reported.
pub proof fn lemma_invalid_marked_empty(names: Seq<Seq<char>>, tag: Seq<char>)
    requires
        all_names_valid(names),
    ensures
        invalid_marked(names, tag).len() == 0,
    decreases names.len(),
{
    if names.len() > 0 {
        let t = names.drop_last();
        assert(forall|i: int| 0 <= i < t.len() ==> t[i] == names[i]);
        lemma_invalid_marked_empty(t, tag);
        assert(is_env_name_valid(names[names.len() - 1]));
    }
}

/// An invalid name is reported.
pub proof fn lemma_invalid_marked_nonempty(names: Seq<Seq<char>>, tag: Seq<char>, i: int)
    requires
        0 <= i < names.len(),
        !is_env_name_valid(names[i]),
    ensures
        invalid_marked(names, tag).len() > 0,
    decreases names.len(),
{
    if i < names.len() - 1 {
        let t = names.drop_last();
        assert(t[i] == names[i]);
        lemma_invalid_marked_nonempty(t, tag, i);
    } else {
        assert(!is_env_name_valid(names.last()));
    }
}

/// Wraps a name in a tag and single quotes, as one reported entry.
fn marked_entry(tag: &str, name: &str) -> (r: String)
    ensures
        r@ == tag@ + seq!['\''] + name@ + seq!['\''],
{
    let mut s = tag.to_owned();
    s.append("'");
    s.append(name);
    s.append("'");
    proof {
        reveal_strlit("'");
        assert(tag@ + "'"@ + name@ + "'"@ =~= tag@ + seq!['\''] + name@ + seq!['\'']);
    }
    s
}

/// Collects the offending entries among a list of names.
fn collect_invalid(names: &Vec<String>, tag: &str, out: &mut Vec<String>)
    ensures
        final(out)@.map_values(|s: String| s@) == old(out)@.map_values(|s: String| s@)
            + invalid_marked(names@.map_values(|s: String| s@), tag@),
{
    let ghost nview = names@.map_values(|s: String| s@);
    let ghost base = old(out)@.map_values(|s: String| s@);
    let mut i: usize = 0;
    while i < names.len()
        invariant
            i <= names.len(),
            nview == names@.map_values(|s: String| s@),
            out@.map_values(|s: String| s@) == base + invalid_marked(nview.take(i as int), tag@),
        decreases names.len() - i,
    {
        let ghost prefix = nview.take(i as int);
        proof {
            assert(nview[i as int] == names@[i as int]@);
            assert(nview.take(i + 1).drop_last() =~= prefix);
            assert(nview.take(i + 1).last() == nview[i as int]);
        }
        if !is_valid_env_var_name(names[i].as_str()) {
            let entry = marked_entry(tag, names[i].as_str());
            let ghost bmap = out@.map_values(|s: String| s@);
            let ghost eview = entry@;
            out.push(entry);
            proof {
                assert(out@.map_values(|s: String| s@) =~= bmap.push(eview));
                assert(eview == tag@ + seq!['\''] + nview[i as int] + seq!['\'']);
                assert(invalid_marked(nview.take(i + 1), tag@) == invalid_marked(
                    prefix,
                    tag@,
                ).push(eview));
                assert(bmap.push(eview) =~= base + invalid_marked(nview.take(i + 1), tag@));
            }
        }
        i = i + 1;
    }
    proof {
        assert(nview.take(nview.len() as int) =~= nview);
    }
}

/// Validates the environment variable names a profile uses.
///
/// Checks the profile's environment keys and its unset entries; an error
/// names the profile and lists every offending entry.
pub fn validate_env_var_names(profile_name: &str, env_keys: &Vec<String>, unset_vars: &Vec<String>) -> (r:
    Result<(), ConfigError>)
    ensures
        r is Ok <==> all_names_valid(env_keys@.map_values(|s: String| s@)) && all_names_valid(
            unset_vars@.map_values(|s: String| s@),
        ),
        match r {
            Ok(()) => true,
            Err(e) => e@ == ConfigErrorView::InvalidEnvNames(
                profile_name@,
                invalid_name_entries(
                    env_keys@.map_values(|s: String| s@),
                    unset_vars@.map_values(|s: String| s@),
                ),
            ),
        },
{
    let ghost kview = env_keys@.map_values(|s: String| s@);
    let ghost uview = unset_vars@.map_values(|s: String| s@);
    let mut entries: Vec<String> = Vec::new();
    collect_invalid(env_keys, "environment key ", &mut entries);
    collect_invalid(unset_vars, "unset entry ", &mut entries);
    proof {
        assert(entries@.map_values(|s: String| s@) =~= invalid_name_entries(kview, uview));
    }
    if entries.len() == 0 {
        proof {
            assert forall|i: int| 0 <= i < kview.len() implies is_env_name_valid(kview[i]) by {
                if !is_env_name_valid(kview[i]) {
                    lemma_invalid_marked_nonempty(kview, "environment key "@, i);
                }
            }
            assert forall|i: int| 0 <= i < uview.len() implies is_env_name_valid(uview[i]) by {
                if !is_env_name_valid(uview[i]) {
                    lemma_invalid_marked_nonempty(uview, "unset entry "@, i);
                }
            }
        }
        Ok(())
    } else {
        proof {
            if all_names_valid(kview) && all_names_valid(uview) {
                lemma_invalid_marked_empty(kview, "environment key "@);
                lemma_invalid_marked_empty(uview, "unset entry "@);
            }
        }
        Err(ConfigError::InvalidEnvNames {
            profile: profile_name.to_owned(),
            entries,
        })
    }
}

/// The profile names in their canonical listing order.
pub open spec fn name_entries<T>(s: Seq<(Seq<char>, T)>) -> Seq<(Seq<char>, bool)> {
    s.map_values(|p: (Seq<char>, T)| (p.0, true))
}

/// The names of a configuration's entries, sorted lexicographically.
pub open spec fn sorted_names<T>(s: Seq<(Seq<char>, T)>) -> Seq<Seq<char>> {
    canon(name_entries(s)).map_values(|p: (Seq<char>, bool)| p.0)
}

/// Every sorted name is the key of some entry.
pub proof fn lemma_sorted_names_keys<T>(s: Seq<(Seq<char>, T)>)
    ensures
        sorted_names(s).len() == s.len(),
        forall|i: int| 0 <= i < s.len() ==> contains_key(s, #[trigger] sorted_names(s)[i]),
{
    lemma_canon_entries(name_entries(s));
    assert forall|i: int| 0 <= i < s.len() implies contains_key(s, #[trigger] sorted_names(s)[i]) by {
        let c = canon(name_entries(s));
        assert(c.contains(c[i]));
        assert(name_entries(s).contains(c[i]));
        let j = choose|j: int| 0 <= j < name_entries(s).len() && name_entries(s)[j] == c[i];
        assert(s[j].0 == c[i].0);
        assert(sorted_names(s)[i] == c[i].0);
    }
}

impl ProfilesConfig {
    /// Looks a profile up by name.
    pub fn get(&self, name: &str) -> (r: Result<&ProfileDef, ConfigError>)
        ensures
            match r {
                Ok(p) => map_of(self@).contains_key(name@) && map_of(self@)[name@] == p@,
                Err(e) => !map_of(self@).contains_key(name@) && e@
                    == ConfigErrorView::UnknownProfile(name@),
            },
    {
        match alist_get(&self.profiles, name) {
            Some(p) => Ok(p),
            None => Err(ConfigError::UnknownProfile { name: name.to_owned() }),
        }
    }

    /// The profile names, sorted lexicographically.
    pub fn names(&self) -> (r: Vec<String>)
        ensures
            r@.map_values(|s: String| s@) == sorted_names(self@),
    {
        let mut tagged: Vec<(String, bool)> = Vec::new();
        let mut i: usize = 0;
        while i < self.profiles.len()
            invariant
                i <= self.profiles.len(),
                pview(tagged@) == name_entries(pview(self.profiles@)).take(i as int),
            decreases self.profiles.len() - i,
        {
            let ghost before = pview(tagged@);
            tagged.push((self.profiles[i].0.clone(), true));
            proof {
                assert(pview(tagged@) =~= before.push((self.profiles@[i as int].0@, true)));
                assert(pview(tagged@) =~= name_entries(pview(self.profiles@)).take(i + 1));
            }
            i = i + 1;
        }
        proof {
            assert(name_entries(pview(self.profiles@)).take(self.profiles@.len() as int)
                =~= name_entries(pview(self.profiles@)));
        }
        let sorted = alist_sort_keys(tagged);
        let ghost sview = pview(sorted@);
        let mut r: Vec<String> = Vec::new();
        let mut rest = sorted;
        while rest.len() > 0
            invariant
                rest@.len() <= sview.len(),
                pview(rest@) == sview.skip(sview.len() - rest@.len()),
                r@.map_values(|s: String| s@) == sview.map_values(|p: (Seq<char>, bool)| p.0).take(
                    sview.len() - rest@.len(),
                ),
            decreases rest@.len(),
        {
            let ghost k = sview.len() - rest@.len();
            let ghost rbefore = r@.map_values(|s: String| s@);
            let ghost oldrest = rest@;
            let e = rest.remove(0);
            r.push(e.0);
            proof {
                assert(e == oldrest[0]);
                assert(pview(oldrest) == sview.skip(k));
                assert(pview(oldrest)[0] == (oldrest[0].0@, oldrest[0].1@));
                assert(rest@ =~= oldrest.skip(1));
                assert(pview(rest@) =~= pview(oldrest).skip(1));
                assert(pview(rest@) =~= sview.skip(k + 1));
                assert(e.0@ == sview[k].0);
                assert(r@.map_values(|s: String| s@) =~= rbefore.push(e.0@));
                assert(r@.map_values(|s: String| s@) =~= sview.map_values(
                    |p: (Seq<char>, bool)| p.0,
                ).take(k + 1));
            }
        }
        proof {
            assert(sview.map_values(|p: (Seq<char>, bool)| p.0).take(sview.len() as int)
                =~= sorted_names(self@));
        }
        r
    }
}

/// The compositor options every resolution starts from, derived from the
/// monitor alone; `adaptive-sync` appears exactly when the monitor has VRR.
pub open spec fn base_options_view(m: MonitorDef) -> Seq<(Seq<char>, OptionValueView)> {
    let common = seq![
        ("backend"@, OptionValueView::Text("sdl"@)),
        ("fade-out-duration"@, OptionValueView::Int(200)),
        ("fullscreen"@, OptionValueView::Bool(true)),
        ("immediate-flips"@, OptionValueView::Bool(true)),
        ("nested-refresh"@, OptionValueView::Int(m.refreshRate as int)),
        ("output-height"@, OptionValueView::Int(m.height as int)),
        ("output-width"@, OptionValueView::Int(m.width as int)),
        ("rt"@, OptionValueView::Bool(true)),
    ];
    if m.vrr {
        common.push(("adaptive-sync"@, OptionValueView::Bool(true)))
    } else {
        common
    }
}

/// The base option keys are distinct, and `adaptive-sync` is none of the
/// eight keys shared by every monitor.
pub proof fn lemma_base_options_distinct(m: MonitorDef)
    ensures
        keys_distinct(base_options_view(m)),
        forall|j: int| 0 <= j < 8 ==> base_options_view(m)[j].0 != "adaptive-sync"@,
{
    reveal_strlit("backend");
    reveal_strlit("fade-out-duration");
    reveal_strlit("fullscreen");
    reveal_strlit("immediate-flips");
    reveal_strlit("nested-refresh");
    reveal_strlit("output-height");
    reveal_strlit("output-width");
    reveal_strlit("rt");
    reveal_strlit("adaptive-sync");
    assert("backend"@.len() == 7);
    assert("fade-out-duration"@.len() == 17);
    assert("fullscreen"@.len() == 10);
    assert("immediate-flips"@.len() == 15);
    assert("nested-refresh"@.len() == 14);
    assert("output-height"@.len() == 13);
    assert("output-width"@.len() == 12);
    assert("rt"@.len() == 2);
    assert("adaptive-sync"@.len() == 13);
    assert("output-height"@[0] == 'o' && "adaptive-sync"@[0] == 'a');
}

/// Derives the base compositor options from a monitor's capabilities.
///
/// The result never holds `adaptive-sync` for a monitor without VRR, and
/// always holds it, as the flag value `true`, for a monitor with VRR.
pub fn base_options(monitor: &MonitorDef) -> (r: Vec<(String, OptionValue)>)
    ensures
        pview(r@) == base_options_view(*monitor),
        keys_distinct(pview(r@)),
        map_of(pview(r@)).contains_key("adaptive-sync"@) <==> monitor.vrr,
        monitor.vrr ==> map_of(pview(r@))["adaptive-sync"@] == OptionValueView::Bool(true),
{
    let mut r: Vec<(String, OptionValue)> = Vec::new();
    r.push(("backend".to_owned(), OptionValue::Text("sdl".to_owned())));
    r.push(("fade-out-duration".to_owned(), OptionValue::Int(200)));
    r.push(("fullscreen".to_owned(), OptionValue::Bool(true)));
    r.push(("immediate-flips".to_owned(), OptionValue::Bool(true)));
    r.push(("nested-refresh".to_owned(), OptionValue::Int(monitor.refreshRate as i64)));
    r.push(("output-height".to_owned(), OptionValue::Int(monitor.height as i64)));
    r.push(("output-width".to_owned(), OptionValue::Int(monitor.width as i64)));
    r.push(("rt".to_owned(), OptionValue::Bool(true)));
    if monitor.vrr {
        r.push(("adaptive-sync".to_owned(), OptionValue::Bool(true)));
    }
    proof {
        assert(pview(r@) =~= base_options_view(*monitor));
        lemma_base_options_distinct(*monitor);
        lemma_map_of_dom(pview(r@));
        if monitor.vrr {
            assert(pview(r@)[8].0 == "adaptive-sync"@);
            lemma_map_of_get_distinct(pview(r@), 8);
        } else {
            assert(forall|j: int| 0 <= j < pview(r@).len() ==> pview(r@)[j].0 != "adaptive-sync"@);
            lemma_map_of_absent(pview(r@), "adaptive-sync"@);
        }
    }
    r
}

/// A combined configuration: the monitor set and the profile set.
#[derive(Debug)]
pub struct Config {
    pub monitors: MonitorsConfig,
    pub profiles: ProfilesConfig,
}

/// Mathematical value of a [`Config`].
pub struct ConfigView {
    pub monitors: Seq<(Seq<char>, MonitorDef)>,
    pub profiles: Seq<(Seq<char>, ProfileDefView)>,
}

impl View for Config {
    type V = ConfigView;

    open spec fn view(&self) -> ConfigView {
        ConfigView { monitors: self.monitors@, profiles: self.profiles@ }
    }
}

/// The keys of a profile's environment mapping.
pub open spec fn env_keys_of(p: ProfileDefView) -> Seq<Seq<char>> {
    p.environment.map_values(|e: (Seq<char>, EnvValueView)| e.0)
}

/// What validation reports for one profile: offending variable names first,
/// then a dangling monitor reference; nothing when the profile is sound.
pub open spec fn profile_issue(
    monitors: Seq<(Seq<char>, MonitorDef)>,
    name: Seq<char>,
    p: ProfileDefView,
) -> Option<ConfigErrorView> {
    if !(all_names_valid(env_keys_of(p)) && all_names_valid(p.unset)) {
        Some(
            ConfigErrorView::InvalidEnvNames(name, invalid_name_entries(env_keys_of(p), p.unset)),
        )
    } else {
        match p.monitor {
            Some(n) => if contains_key(monitors, n) {
                None
            } else {
                Some(ConfigErrorView::UnknownMonitorRef(name, n))
            },
            None => None,
        }
    }
}

/// No two monitors are flagged primary.
pub open spec fn at_most_one_primary(s: Seq<(Seq<char>, MonitorDef)>) -> bool {
    forall|i: int, j: int| 0 <= i < j < s.len() ==> !(s[i].1.primary && s[j].1.primary)
}

/// The profile's environment keys, as owned strings.
fn env_key_strings(env: &Vec<(String, EnvValue)>) -> (r: Vec<String>)
    ensures
        r@.map_values(|s: String| s@) == pview(env@).map_values(
            |e: (Seq<char>, EnvValueView)| e.0,
        ),
{
    let ghost target = pview(env@).map_values(|e: (Seq<char>, EnvValueView)| e.0);
    let mut r: Vec<String> = Vec::new();
    let mut i: usize = 0;
    while i < env.len()
        invariant
            i <= env.len(),
            target == pview(env@).map_values(|e: (Seq<char>, EnvValueView)| e.0),
            r@.map_values(|s: String| s@) == target.take(i as int),
        decreases env.len() - i,
    {
        let ghost before = r@.map_values(|s: String| s@);
        r.push(env[i].0.clone());
        proof {
            assert(r@.map_values(|s: String| s@) =~= before.push(env@[i as int].0@));
            assert(target[i as int] == env@[i as int].0@);
            assert(before.push(env@[i as int].0@) =~= target.take(i + 1));
        }
        i = i + 1;
    }
    proof {
        assert(target.take(target.len() as int) =~= target);
    }
    r
}

impl Config {
    /// Validates the two documents together and combines them.
    ///
    /// At most one monitor may be flagged primary.  Every profile's
    /// environment and unset names must be valid variable names, and every
    /// monitor reference must name a configured monitor; the first
    /// offending profile, in document order, decides the error.
    pub fn load(monitors: MonitorsConfig, profiles: ProfilesConfig) -> (r: Result<
        Config,
        ConfigError,
    >)
        ensures
            match r {
                Ok(c) => {
                    &&& c@.monitors == monitors@
                    &&& c@.profiles == profiles@
                    &&& at_most_one_primary(monitors@)
                    &&& forall|i: int|
                        0 <= i < profiles@.len() ==> profile_issue(
                            monitors@,
                            profiles@[i].0,
                            #[trigger] profiles@[i].1,
                        ) is None
                },
                Err(e) => {
                    if !at_most_one_primary(monitors@) {
                        exists|i: int, j: int|
                            {
                                &&& 0 <= i < j < monitors@.len()
                                &&& monitors@[i].1.primary
                                &&& monitors@[j].1.primary
                                &&& (forall|k: int| 0 <= k < i ==> !monitors@[k].1.primary)
                                &&& (forall|k: int| i < k < j ==> !monitors@[k].1.primary)
                                &&& e@ == ConfigErrorView::MultiplePrimaryMonitors(
                                    monitors@[i].0,
                                    monitors@[j].0,
                                )
                            }
                    } else {
                        exists|i: int|
                            {
                                &&& 0 <= i < profiles@.len()
                                &&& profile_issue(
                                    monitors@,
                                    profiles@[i].0,
                                    #[trigger] profiles@[i].1,
                                ) == Some(e@)
                                &&& forall|j: int|
                                    0 <= j < i ==> profile_issue(
                                        monitors@,
                                        profiles@[j].0,
                                        #[trigger] profiles@[j].1,
                                    ) is None
                            }
                    }
                },
            },
    {
        let mut first_primary_at: Option<usize> = None;
        let mut m: usize = 0;
        while m < monitors.monitors.len()
            invariant
                m <= monitors.monitors.len(),
                match first_primary_at {
                    Some(f) => {
                        &&& f < m
                        &&& monitors@[f as int].1.primary
                        &&& forall|k: int| 0 <= k < f ==> !monitors@[k].1.primary
                        &&& forall|k: int| f < k < m ==> !monitors@[k].1.primary
                    },
                    None => forall|k: int| 0 <= k < m ==> !monitors@[k].1.primary,
                },
            decreases monitors.monitors.len() - m,
        {
            proof {
                assert(monitors@[m as int] == (monitors.monitors@[m as int].0@,
                monitors.monitors@[m as int].1));
            }
            if monitors.monitors[m].1.primary {
                match first_primary_at {
                    Some(f) => {
                        let err = ConfigError::MultiplePrimaryMonitors {
                            first: monitors.monitors[f].0.clone(),
                            second: monitors.monitors[m].0.clone(),
                        };
                        proof {
                            assert(!at_most_one_primary(monitors@));
                            assert(monitors@[f as int].0 == monitors.monitors@[f as int].0@);
                            assert(monitors@[m as int].0 == monitors.monitors@[m as int].0@);
                            assert(err@ == ConfigErrorView::MultiplePrimaryMonitors(
                                monitors@[f as int].0,
                                monitors@[m as int].0,
                            ));
                            assert({
                                &&& 0 <= (f as int) && (f as int) < (m as int) && (m as int)
                                    < monitors@.len()
                                &&& monitors@[f as int].1.primary
                                &&& monitors@[m as int].1.primary
                                &&& (forall|k: int|
                                    0 <= k && k < (f as int) ==> !monitors@[k].1.primary)
                                &&& (forall|k: int|
                                    (f as int) < k && k < (m as int) ==> !monitors@[k].1.primary)
                            });
                        }
                        return Err(err);
                    },
                    None => {
                        first_primary_at = Some(m);
                    },
                }
            }
            m = m + 1;
        }
        proof {
            assert(at_most_one_primary(monitors@)) by {
                assert forall|i: int, j: int|
                    0 <= i < j < monitors@.len() implies !(monitors@[i].1.primary
                    && monitors@[j].1.primary) by {
                    match first_primary_at {
                        Some(f) => {
                            if i != f {
                                assert(!monitors@[i].1.primary);
                            } else {
                                assert(!monitors@[j].1.primary);
                            }
                        },
                        None => {
                            assert(!monitors@[i].1.primary);
                        },
                    }
                }
            }
        }
        let mut i: usize = 0;
        while i < profiles.profiles.len()
            invariant
                i <= profiles.profiles.len(),
                at_most_one_primary(monitors@),
                forall|j: int|
                    0 <= j < i ==> profile_issue(
                        monitors@,
                        profiles@[j].0,
                        #[trigger] profiles@[j].1,
                    ) is None,
            decreases profiles.profiles.len() - i,
        {
            let name = &profiles.profiles[i].0;
            let profile = &profiles.profiles[i].1;
            proof {
                assert(profiles@[i as int] == (name@, profile@));
            }
            let env_keys = env_key_strings(&profile.environment);
            match validate_env_var_names(name.as_str(), &env_keys, &profile.unset) {
                Ok(()) => {},
                Err(e) => {
                    proof {
                        assert(env_keys@.map_values(|s: String| s@) == env_keys_of(profile@));
                        assert(profile_issue(monitors@, profiles@[i as int].0,
                        profiles@[i as int].1) == Some(e@));
                    }
                    return Err(e);
                },
            }
            match &profile.monitor {
                Some(n) => {
                    if alist_get(&monitors.monitors, n.as_str()).is_none() {
                        proof {
                            lemma_map_of_dom(monitors@);
                            assert(profile_issue(monitors@, profiles@[i as int].0,
                            profiles@[i as int].1) == Some(
                                ConfigErrorView::UnknownMonitorRef(name@, n@),
                            ));
                        }
                        return Err(ConfigError::UnknownMonitorRef {
                            profile: name.clone(),
                            monitor: n.clone(),
                        });
                    }
                },
                None => {},
            }
            proof {
                lemma_map_of_dom(monitors@);
                assert(profile_issue(monitors@, profiles@[i as int].0, profiles@[i as int].1)
                    is None);
            }
            i = i + 1;
        }
        Ok(Config { monitors, profiles })
    }
}

/// The monitor a profile resolves against: the one it names, or the
/// configuration's first primary monitor when it names none.
pub open spec fn chosen_monitor(c: ConfigView, p: ProfileDefView) -> Option<
    (Seq<char>, MonitorDef),
> {
    match p.monitor {
        Some(n) => if map_of(c.monitors).contains_key(n) {
            Some((n, map_of(c.monitors)[n]))
        } else {
            None
        },
        None => first_primary(c.monitors),
    }
}

/// HDR is used when the profile says so, and defaults to the monitor's HDR
/// capability when the profile is silent.
pub open spec fn resolved_use_hdr(p: ProfileDefView, m: MonitorDef) -> bool {
    match p.use_hdr {
        Some(b) => b,
        None => m.hdr,
    }
}

/// WSI is used when the profile says so, and defaults to on when the
/// profile is silent.
pub open spec fn resolved_use_wsi(p: ProfileDefView) -> bool {
    match p.use_wsi {
        Some(b) => b,
        None => true,
    }
}

/// A profile's environment values, rendered to the text they take in the
/// environment.
pub open spec fn env_text_pairs(s: Seq<(Seq<char>, EnvValueView)>) -> Seq<(Seq<char>, Seq<char>)> {
    s.map_values(|e: (Seq<char>, EnvValueView)| (e.0, env_value_text(e.1)))
}

impl Config {
    /// Resolves a named profile against its monitor.
    ///
    /// The merged options are the monitor-derived base overlaid with the
    /// profile's options, the profile's entries winning on a shared key.
    /// An unknown profile name, an unknown monitor reference, and a missing
    /// primary monitor when the profile names none each fail with the
    /// matching error.
    pub fn resolve_profile(&self, name: &str) -> (r: Result<
        crate::profile::ResolvedProfile,
        ConfigError,
    >)
        ensures
            match r {
                Ok(rp) => {
                    &&& map_of(self@.profiles).contains_key(name@)
                    &&& ({
                        let p = map_of(self@.profiles)[name@];
                        chosen_monitor(self@, p) matches Some(cm) && {
                            &&& rp@.name == name@
                            &&& rp@.monitor_name == cm.0
                            &&& rp@.binary == p.binary
                            &&& rp@.use_hdr == resolved_use_hdr(p, cm.1)
                            &&& rp@.use_wsi == resolved_use_wsi(p)
                            &&& map_of(rp@.options) == map_of(base_options_view(cm.1) + p.options)
                            &&& keys_distinct(rp@.options)
                            &&& rp@.user_env == env_text_pairs(p.environment)
                            &&& rp@.unset_vars == p.unset
                        }
                    })
                },
                Err(e) => {
                    if !map_of(self@.profiles).contains_key(name@) {
                        e@ == ConfigErrorView::UnknownProfile(name@)
                    } else {
                        let p = map_of(self@.profiles)[name@];
                        &&& chosen_monitor(self@, p) is None
                        &&& match p.monitor {
                            Some(n) => e@ == ConfigErrorView::UnknownMonitor(n),
                            None => e@ == ConfigErrorView::NoPrimaryMonitor,
                        }
                    }
                },
            },
    {
        let profile = match self.profiles.get(name) {
            Ok(p) => p,
            Err(e) => {
                return Err(e);
            },
        };
        let (monitor_name, monitor): (String, MonitorDef) = match &profile.monitor {
            Some(n) => match self.monitors.get(n.as_str()) {
                Ok(m) => (n.clone(), *m),
                Err(e) => {
                    return Err(e);
                },
            },
            None => match self.monitors.default_monitor() {
                Ok(nm) => nm,
                Err(e) => {
                    return Err(e);
                },
            },
        };
        let ghost p = map_of(self@.profiles)[name@];
        let ghost cm = (monitor_name@, monitor);
        proof {
            assert(chosen_monitor(self@, p) == Some(cm));
        }
        let mut options = base_options(&monitor);
        let ghost oview = pview(profile.options@);
        let mut i: usize = 0;
        while i < profile.options.len()
            invariant
                i <= profile.options.len(),
                oview == pview(profile.options@),
                map_of(pview(options@)) == map_of(base_options_view(monitor) + oview.take(
                    i as int,
                )),
                keys_distinct(pview(options@)),
            decreases profile.options.len() - i,
        {
            let pair = &profile.options[i];
            alist_upsert(&mut options, pair.0.clone(), pair.1.duplicate());
            proof {
                let b0 = base_options_view(monitor) + oview.take(i as int);
                let b1 = base_options_view(monitor) + oview.take(i + 1);
                assert(b1.drop_last() =~= b0);
                assert(b1.last() == oview[i as int]);
                assert(oview[i as int] == (profile.options@[i as int].0@,
                profile.options@[i as int].1@));
            }
            i = i + 1;
        }
        proof {
            assert(base_options_view(monitor) + oview.take(oview.len() as int)
                =~= base_options_view(monitor) + oview);
        }
        let ghost etarget = env_text_pairs(pview(profile.environment@));
        let mut user_env: Vec<(String, String)> = Vec::new();
        let mut k: usize = 0;
        while k < profile.environment.len()
            invariant
                k <= profile.environment.len(),
                etarget == env_text_pairs(pview(profile.environment@)),
                pview(user_env@) == etarget.take(k as int),
            decreases profile.environment.len() - k,
        {
            let entry = &profile.environment[k];
            let ghost before = pview(user_env@);
            user_env.push((entry.0.clone(), entry.1.display_string()));
            proof {
                assert(pview(user_env@) =~= before.push(
                    (profile.environment@[k as int].0@, env_value_text(
                        profile.environment@[k as int].1@,
                    )),
                ));
                assert(etarget[k as int] == (profile.environment@[k as int].0@, env_value_text(
                    profile.environment@[k as int].1@,
                )));
                assert(pview(user_env@) =~= etarget.take(k + 1));
            }
            k = k + 1;
        }
        proof {
            assert(etarget.take(etarget.len() as int) =~= etarget);
        }
        let unset_vars = clone_strings(&profile.unset);
        let use_hdr = match profile.use_hdr {
            Some(b) => b,
            None => monitor.hdr,
        };
        let use_wsi = match profile.use_wsi {
            Some(b) => b,
            None => true,
        };
        Ok(
            crate::profile::ResolvedProfile {
                name: name.to_owned(),
                monitor_name,
                binary: profile.binary.clone(),
                use_hdr,
                use_wsi,
                options,
                user_env,
                unset_vars,
            },
        )
    }
}

/// The text of a boolean in a listing.
pub open spec fn bool_text(b: bool) -> Seq<char> {
    if b {
        "true"@
    } else {
        "false"@
    }
}

/// The text of a boolean in a listing.
pub fn bool_str(b: bool) -> (r: &'static str)
    ensures
        r@ == bool_text(b),
{
    if b {
        "true"
    } else {
        "false"
    }
}

/// One line of the profile listing: the monitor and the two feature flags.
pub open spec fn summary_text(monitor_name: Seq<char>, use_hdr: bool, use_wsi: bool) -> Seq<char> {
    "monitor="@ + monitor_name + " HDR="@ + bool_text(use_hdr) + " WSI="@ + bool_text(use_wsi)
}

/// Builds one line of the profile listing.
fn summary_string(monitor_name: &str, use_hdr: bool, use_wsi: bool) -> (r: String)
    ensures
        r@ == summary_text(monitor_name@, use_hdr, use_wsi),
{
    let mut s = "monitor=".to_owned();
    s.append(monitor_name);
    s.append(" HDR=");
    s.append(bool_str(use_hdr));
    s.append(" WSI=");
    s.append(bool_str(use_wsi));
    proof {
        assert(s@ =~= summary_text(monitor_name@, use_hdr, use_wsi));
    }
    s
}

/// The line shown for a profile whose monitor cannot be determined: the
/// error, behind a fixed marker.
pub open spec fn unresolvable_text(p: ProfileDefView) -> Seq<char> {
    "unavailable: "@ + error_message_text(
        match p.monitor {
            Some(n) => ConfigErrorView::UnknownMonitor(n),
            None => ConfigErrorView::NoPrimaryMonitor,
        },
    )
}

/// The profile listing for a sequence of names: every name, in order, with
/// its summary line, or with the unavailability note where no monitor can
/// be determined for it.
pub open spec fn list_entries(c: ConfigView, names: Seq<Seq<char>>) -> Seq<(Seq<char>, Seq<char>)>
    decreases names.len(),
{
    if names.len() == 0 {
        Seq::empty()
    } else {
        let rest = list_entries(c, names.drop_last());
        let n = names.last();
        if map_of(c.profiles).contains_key(n) {
            let p = map_of(c.profiles)[n];
            match chosen_monitor(c, p) {
                Some(cm) => rest.push(
                    (n, summary_text(cm.0, resolved_use_hdr(p, cm.1), resolved_use_wsi(p))),
                ),
                None => rest.push((n, unresolvable_text(p))),
            }
        } else {
            rest
        }
    }
}

/// A listing covers its names completely when each is a configured
/// profile.
proof fn lemma_list_entries_len(c: ConfigView, names: Seq<Seq<char>>)
    requires
        forall|i: int| 0 <= i < names.len() ==> map_of(c.profiles).contains_key(#[trigger] names[i]),
    ensures
        list_entries(c, names).len() == names.len(),
    decreases names.len(),
{
    if names.len() > 0 {
        let t = names.drop_last();
        assert(forall|i: int| 0 <= i < t.len() ==> t[i] == names[i]);
        lemma_list_entries_len(c, t);
        assert(map_of(c.profiles).contains_key(names[names.len() - 1]));
    }
}

impl Config {
    /// Lists every profile, sorted by name, each with a one-line summary of
    /// its monitor and feature flags; a profile whose monitor cannot be
    /// determined is listed with a note naming the error instead.
    pub fn list_profiles(&self) -> (r: Vec<(String, String)>)
        ensures
            pview(r@) == list_entries(self@, sorted_names(self@.profiles)),
            r@.len() == self@.profiles.len(),
    {
        let names = self.profiles.names();
        let ghost ns = sorted_names(self@.profiles);
        proof {
            lemma_sorted_names_keys(self@.profiles);
            lemma_map_of_dom(self@.profiles);
        }
        let mut r: Vec<(String, String)> = Vec::new();
        let mut i: usize = 0;
        while i < names.len()
            invariant
                i <= names.len(),
                ns == sorted_names(self@.profiles),
                names@.map_values(|s: String| s@) == ns,
                pview(r@) == list_entries(self@, ns.take(i as int)),
                forall|j: int| 0 <= j < ns.len() ==> map_of(self@.profiles).contains_key(#[trigger] ns[j]),
            decreases names.len() - i,
        {
            let ghost before = pview(r@);
            proof {
                assert(ns.take(i + 1).drop_last() =~= ns.take(i as int));
                assert(ns.take(i + 1).last() == ns[i as int]);
                assert(names@[i as int]@ == ns[i as int]);
            }
            match self.resolve_profile(names[i].as_str()) {
                Ok(rp) => {
                    let summary = summary_string(rp.monitor_name.as_str(), rp.use_hdr, rp.use_wsi);
                    r.push((rp.name, summary));
                    proof {
                        assert(pview(r@) =~= before.push((ns[i as int], summary_text(
                            rp@.monitor_name,
                            rp.use_hdr,
                            rp.use_wsi,
                        ))));
                        assert(pview(r@) =~= list_entries(self@, ns.take(i + 1)));
                    }
                },
                Err(e) => {
                    let mut note = "unavailable: ".to_owned();
                    let message = e.message();
                    note.append(message.as_str());
                    r.push((names[i].clone(), note));
                    proof {
                        assert(map_of(self@.profiles).contains_key(ns[i as int]));
                        let p = map_of(self@.profiles)[ns[i as int]];
                        assert(note@ == unresolvable_text(p));
                        assert(pview(r@) =~= before.push((ns[i as int], unresolvable_text(p))));
                        assert(pview(r@) =~= list_entries(self@, ns.take(i + 1)));
                    }
                },
            }
            i = i + 1;
        }
        proof {
            assert(ns.take(ns.len() as int) =~= ns);
            lemma_list_entries_len(self@, ns);
        }
        r
    }
}

/// Joins reported entries with commas.
pub open spec fn join_comma(entries: Seq<Seq<char>>) -> Seq<char>
    decreases entries.len(),
{
    if entries.len() == 0 {
        Seq::empty()
    } else if entries.len() == 1 {
        entries[0]
    } else {
        join_comma(entries.drop_last()) + ", "@ + entries.last()
    }
}

/// The full text of an error.
pub open spec fn error_message_text(e: ConfigErrorView) -> Seq<char> {
    match e {
        ConfigErrorView::UnknownProfile(n) => "Unknown profile '"@ + n + "'"@,
        ConfigErrorView::UnknownMonitor(n) => "Unknown monitor '"@ + n + "'"@,
        ConfigErrorView::NoPrimaryMonitor => "No primary monitor. Set 'primary: true' on one monitor."@,
        ConfigErrorView::UnknownMonitorRef(p, m) => "Profile '"@ + p
            + "' references unknown monitor '"@ + m + "'"@,
        ConfigErrorView::InvalidEnvNames(p, entries) => "Profile '"@ + p
            + "': invalid environment variable names: "@ + join_comma(entries),
        ConfigErrorView::MultiplePrimaryMonitors(a, b) => "Multiple primary monitors: '"@ + a
            + "' and '"@ + b + "'. Set 'primary: true' on one monitor only."@,
    }
}

impl ConfigError {
    /// The error, spelled out for the caller.
    pub fn message(&self) -> (r: String)
        ensures
            r@ == error_message_text(self@),
    {
        match self {
            ConfigError::UnknownProfile { name } => {
                let mut s = "Unknown profile '".to_owned();
                s.append(name.as_str());
                s.append("'");
                proof {
                    assert(s@ =~= error_message_text(self@));
                }
                s
            },
            ConfigError::UnknownMonitor { name } => {
                let mut s = "Unknown monitor '".to_owned();
                s.append(name.as_str());
                s.append("'");
                proof {
                    assert(s@ =~= error_message_text(self@));
                }
                s
            },
            ConfigError::NoPrimaryMonitor => {
                "No primary monitor. Set 'primary: true' on one monitor.".to_owned()
            },
            ConfigError::UnknownMonitorRef { profile, monitor } => {
                let mut s = "Profile '".to_owned();
                s.append(profile.as_str());
                s.append("' references unknown monitor '");
                s.append(monitor.as_str());
                s.append("'");
                proof {
                    assert(s@ =~= error_message_text(self@));
                }
                s
            },
            ConfigError::InvalidEnvNames { profile, entries } => {
                let mut s = "Profile '".to_owned();
                s.append(profile.as_str());
                s.append("': invalid environment variable names: ");
                let joined = join_comma_strings(entries);
                s.append(joined.as_str());
                proof {
                    assert(s@ =~= error_message_text(self@));
                }
                s
            },
            ConfigError::MultiplePrimaryMonitors { first, second } => {
                let mut s = "Multiple primary monitors: '".to_owned();
                s.append(first.as_str());
                s.append("' and '");
                s.append(second.as_str());
                s.append("'. Set 'primary: true' on one monitor only.");
                proof {
                    assert(s@ =~= error_message_text(self@));
                }
                s
            },
        }
    }
}

/// Joins reported entries with commas.
fn join_comma_strings(entries: &Vec<String>) -> (r: String)
    ensures
        r@ == join_comma(entries@.map_values(|s: String| s@)),
{
    let ghost eview = entries@.map_values(|s: String| s@);
    let mut s = String::new();
    let mut i: usize = 0;
    while i < entries.len()
        invariant
            i <= entries.len(),
            eview == entries@.map_values(|s: String| s@),
            s@ == join_comma(eview.take(i as int)),
        decreases entries.len() - i,
    {
        if i > 0 {
            s.append(", ");
        }
        s.append(entries[i].as_str());
        proof {
            assert(eview.take(i + 1).drop_last() =~= eview.take(i as int));
            assert(eview.take(i + 1).last() == eview[i as int]);
            assert(eview[i as int] == entries@[i as int]@);
            if i == 0 {
                assert(s@ =~= join_comma(eview.take(1)));
            } else {
                assert(s@ =~= join_comma(eview.take(i + 1)));
            }
        }
        i = i + 1;
    }
    proof {
        assert(eview.take(eview.len() as int) =~= eview);
    }
    s
}

} // verus!
