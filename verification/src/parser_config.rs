//! The declarative, per-program grammar: separators, short (character) and
//! long (string) option tables, quoting and value-gluing flags, and the
//! behaviour tags used by enrichment.

use vstd::prelude::*;

use crate::chars_util;

verus! {

/// The grammar document as loaded from storage: option entries with their
/// optional `has_arg` flags and behaviour tags, plus program-level flags.
#[derive(Debug)]
pub struct ConfigFile {
    pub name: String,
    pub has_separatorless_args_for_char_options: bool,
    pub handle_quotes: bool,
    pub string_separators: Vec<String>,
    pub string_options: Vec<StringOption>,
    pub char_options: Vec<CharOption>,
    pub behaviours: Vec<String>,
}

/// A long option entry of the grammar document.
#[derive(Debug)]
pub struct StringOption {
    pub option_name: String,
    pub has_arg: Option<bool>,
    pub behaviours: Vec<String>,
}

/// A short option entry of the grammar document.
#[derive(Debug)]
pub struct CharOption {
    pub option_name: char,
    pub has_arg: Option<bool>,
    pub behaviours: Vec<String>,
}

/// The resolved grammar a parse runs against: flattened lookup tables next
/// to the document they came from.  Immutable once constructed.
#[derive(Debug)]
pub struct ParserConfig {
    pub name: String,
    pub string_separators: Vec<char>,
    pub char_options: Vec<(char, bool)>,
    pub string_options: Vec<(String, bool)>,
    pub has_separatorless_args_for_char_options: bool,
    pub handle_quotes: bool,
    pub config_file: ConfigFile,
}

// ---------------------------------------------------------------------------
// Lookup specifications
// ---------------------------------------------------------------------------

pub open spec fn spec_is_separator(cfg: ParserConfig, c: char) -> bool {
    cfg.string_separators@.contains(c)
}

/// First match in the short option table.
pub open spec fn spec_find_char_opt(opts: Seq<(char, bool)>, c: char) -> Option<bool>
    decreases opts.len(),
{
    if opts.len() == 0 {
        None
    } else if opts[0].0 == c {
        Some(opts[0].1)
    } else {
        spec_find_char_opt(opts.skip(1), c)
    }
}

/// First match in the long option table.
pub open spec fn spec_find_string_opt(opts: Seq<(String, bool)>, name: Seq<char>) -> Option<bool>
    decreases opts.len(),
{
    if opts.len() == 0 {
        None
    } else if opts[0].0@ == name {
        Some(opts[0].1)
    } else {
        spec_find_string_opt(opts.skip(1), name)
    }
}

pub open spec fn spec_char_option(cfg: ParserConfig, c: char) -> Option<bool> {
    spec_find_char_opt(cfg.char_options@, c)
}

pub open spec fn spec_string_option(cfg: ParserConfig, name: Seq<char>) -> Option<bool> {
    spec_find_string_opt(cfg.string_options@, name)
}

/// First match in the document's short option entries.
pub open spec fn spec_find_char_behaviours(opts: Seq<CharOption>, c: char) -> Option<
    Seq<Seq<char>>,
>
    decreases opts.len(),
{
    if opts.len() == 0 {
        None
    } else if opts[0].option_name == c {
        Some(opts[0].behaviours.deep_view())
    } else {
        spec_find_char_behaviours(opts.skip(1), c)
    }
}

/// First match in the document's long option entries.
pub open spec fn spec_find_string_behaviours(opts: Seq<StringOption>, name: Seq<char>) -> Option<
    Seq<Seq<char>>,
>
    decreases opts.len(),
{
    if opts.len() == 0 {
        None
    } else if opts[0].option_name@ == name {
        Some(opts[0].behaviours.deep_view())
    } else {
        spec_find_string_behaviours(opts.skip(1), name)
    }
}

/// Behaviour lookup dispatches on the name's length: a single character
/// goes to the short table, anything else to the long table.
pub open spec fn spec_behaviours(cfg: ParserConfig, name: Seq<char>) -> Option<Seq<Seq<char>>> {
    if name.len() == 1 {
        spec_find_char_behaviours(cfg.config_file.char_options@, name[0])
    } else {
        spec_find_string_behaviours(cfg.config_file.string_options@, name)
    }
}

// ---------------------------------------------------------------------------
// Error messages
// ---------------------------------------------------------------------------

pub open spec fn msg_unknown_char_option(c: char) -> Seq<char> {
    "unknown char option: "@.push(c)
}

pub open spec fn msg_unknown_string_option(name: Seq<char>) -> Seq<char> {
    "unknown string option: "@ + name
}

// ---------------------------------------------------------------------------
// The embedded-split recovery
// ---------------------------------------------------------------------------

/// Position `p` splits `s` into a known long option name and a value: the
/// character at `p` is a configured separator and the prefix before it is
/// in the long option table.
pub open spec fn spec_split_candidate(cfg: ParserConfig, s: Seq<char>, p: int) -> bool {
    0 <= p < s.len() && spec_is_separator(cfg, s[p]) && spec_string_option(
        cfg,
        s.take(p),
    ) is Some
}

/// The greatest split position below `n`, if any.
pub open spec fn spec_best_split_upto(cfg: ParserConfig, s: Seq<char>, n: int) -> Option<int>
    decreases n,
{
    if n <= 0 {
        None
    } else if spec_split_candidate(cfg, s, n - 1) {
        Some(n - 1)
    } else {
        spec_best_split_upto(cfg, s, n - 1)
    }
}

/// The split position the embedded-split recovery chooses: the one whose
/// prefix — the recovered option name — is longest.
pub open spec fn spec_best_split(cfg: ParserConfig, s: Seq<char>) -> Option<int> {
    spec_best_split_upto(cfg, s, s.len() as int)
}

proof fn lemma_best_split_upto_longest(cfg: ParserConfig, s: Seq<char>, n: int)
    requires
        n <= s.len(),
    ensures
        match spec_best_split_upto(cfg, s, n) {
            Some(p) => spec_split_candidate(cfg, s, p) && forall|q: int|
                spec_split_candidate(cfg, s, q) && q < n ==> q <= p,
            None => forall|q: int| q < n ==> !spec_split_candidate(cfg, s, q),
        },
    decreases n,
{
    if n > 0 && !spec_split_candidate(cfg, s, n - 1) {
        lemma_best_split_upto_longest(cfg, s, n - 1);
    }
}

/// Longest match: the split the recovery chooses is a genuine candidate
/// and no candidate has a longer option-name prefix; when it chooses none,
/// no position in the string qualifies at all.
pub proof fn lemma_best_split_longest(cfg: ParserConfig, s: Seq<char>)
    ensures
        match spec_best_split(cfg, s) {
            Some(p) => spec_split_candidate(cfg, s, p) && forall|q: int|
                spec_split_candidate(cfg, s, q) ==> q <= p,
            None => forall|q: int| !spec_split_candidate(cfg, s, q),
        },
{
    lemma_best_split_upto_longest(cfg, s, s.len() as int);
}

// ---------------------------------------------------------------------------
// Executable lookups
// ---------------------------------------------------------------------------

/// Compares a string's characters with `v[0..to]`.
fn string_eq_chars_prefix(s: &str, v: &[char], to: usize) -> (r: bool)
    requires
        to <= v@.len(),
    ensures
        r == (s@ == v@.subrange(0, to as int)),
{
    let n = s.unicode_len();
    if n != to {
        return false;
    }
    let mut i: usize = 0;
    while i < n
        invariant
            i <= n,
            n == s@.len(),
            n == to <= v@.len(),
            forall|j: int| 0 <= j < i ==> s@[j] == v@.subrange(0, to as int)[j],
        decreases n - i,
    {
        let a = s.get_char(i);
        let b = v[i];
        if a != b {
            proof {
                assert(s@[i as int] != v@.subrange(0, to as int)[i as int]);
            }
            return false;
        }
        i = i + 1;
    }
    proof {
        assert(s@ =~= v@.subrange(0, to as int));
    }
    true
}

/// Clones a vector of strings, keeping its view.
pub fn clone_string_vec(v: &Vec<String>) -> (r: Vec<String>)
    ensures
        r.deep_view() == v.deep_view(),
{
    let mut r: Vec<String> = Vec::new();
    let mut i: usize = 0;
    while i < v.len()
        invariant
            i <= v@.len(),
            r@.len() == i,
            forall|j: int| 0 <= j < i ==> #[trigger] r@[j]@ == v@[j]@,
        decreases v@.len() - i,
    {
        r.push(v[i].clone());
        i = i + 1;
    }
    proof {
        assert(r.deep_view() =~= v.deep_view());
    }
    r
}

impl ParserConfig {
    /// Bundles the already-resolved tables and flags into a grammar value.
    pub fn new(
        name: String,
        string_separators: Vec<char>,
        char_options: Vec<(char, bool)>,
        string_options: Vec<(String, bool)>,
        has_separatorless_args_for_char_options: bool,
        handle_quotes: bool,
        config_file: ConfigFile,
    ) -> (cfg: ParserConfig)
        ensures
            cfg == (ParserConfig {
                name,
                string_separators,
                char_options,
                string_options,
                has_separatorless_args_for_char_options,
                handle_quotes,
                config_file,
            }),
    {
        ParserConfig {
            name,
            string_separators,
            char_options,
            string_options,
            has_separatorless_args_for_char_options,
            handle_quotes,
            config_file,
        }
    }

    /// Whether the character is one of the configured separators.
    pub fn is_separator(&self, that_char: char) -> (r: bool)
        ensures
            r == spec_is_separator(*self, that_char),
    {
        let mut i: usize = 0;
        while i < self.string_separators.len()
            invariant
                i <= self.string_separators@.len(),
                forall|j: int| 0 <= j < i ==> self.string_separators@[j] != that_char,
            decreases self.string_separators@.len() - i,
        {
            if self.string_separators[i] == that_char {
                return true;
            }
            i = i + 1;
        }
        false
    }

    /// Resolves a short option: `Ok` holds its `takes a value` flag, `Err`
    /// reports an unknown option.
    pub fn does_char_option_have_arg(&self, option_name: &char) -> (r: Result<bool, String>)
        ensures
            match r {
                Ok(b) => spec_char_option(*self, *option_name) == Some(b),
                Err(m) => spec_char_option(*self, *option_name) is None && m@
                    == msg_unknown_char_option(*option_name),
            },
    {
        let ghost whole = self.char_options@;
        let mut i: usize = 0;
        proof {
            assert(whole.skip(0) =~= whole);
        }
        while i < self.char_options.len()
            invariant
                i <= whole.len(),
                whole == self.char_options@,
                spec_find_char_opt(whole, *option_name) == spec_find_char_opt(
                    whole.skip(i as int),
                    *option_name,
                ),
            decreases whole.len() - i,
        {
            let entry = &self.char_options[i];
            proof {
                assert(whole.skip(i as int)[0] == whole[i as int]);
                assert(whole.skip(i as int).skip(1) =~= whole.skip(i + 1));
            }
            if entry.0 == *option_name {
                return Ok(entry.1);
            }
            i = i + 1;
        }
        let mut m = String::new();
        m.append("unknown char option: ");
        chars_util::push_char(&mut m, *option_name);
        proof {
            assert(Seq::<char>::empty() + "unknown char option: "@ =~= "unknown char option: "@);
        }
        Err(m)
    }

    /// Resolves a long option: `Ok` holds its `takes a value` flag, `Err`
    /// reports an unknown option.
    pub fn does_string_option_have_arg(&self, option_name: &String) -> (r: Result<bool, String>)
        ensures
            match r {
                Ok(b) => spec_string_option(*self, option_name@) == Some(b),
                Err(m) => spec_string_option(*self, option_name@) is None && m@
                    == msg_unknown_string_option(option_name@),
            },
    {
        let ghost whole = self.string_options@;
        let mut i: usize = 0;
        proof {
            assert(whole.skip(0) =~= whole);
        }
        while i < self.string_options.len()
            invariant
                i <= whole.len(),
                whole == self.string_options@,
                spec_find_string_opt(whole, option_name@) == spec_find_string_opt(
                    whole.skip(i as int),
                    option_name@,
                ),
            decreases whole.len() - i,
        {
            let entry = &self.string_options[i];
            proof {
                assert(whole.skip(i as int)[0] == whole[i as int]);
                assert(whole.skip(i as int).skip(1) =~= whole.skip(i + 1));
            }
            if entry.0.eq(option_name) {
                return Ok(entry.1);
            }
            i = i + 1;
        }
        let mut m = String::new();
        m.append("unknown string option: ");
        m.append(option_name.as_str());
        proof {
            assert(Seq::<char>::empty() + "unknown string option: "@ =~= "unknown string option: "@);
        }
        Err(m)
    }

    /// Behaviour tags of a short option, from the grammar document.
    pub fn get_behaviours_for_char_option(&self, option_name: &char) -> (r: Result<
        Vec<String>,
        String,
    >)
        ensures
            match r {
                Ok(tags) => spec_find_char_behaviours(self.config_file.char_options@, *option_name)
                    == Some(tags.deep_view()),
                Err(m) => spec_find_char_behaviours(
                    self.config_file.char_options@,
                    *option_name,
                ) is None && m@ == msg_unknown_char_option(*option_name),
            },
    {
        let ghost whole = self.config_file.char_options@;
        let mut i: usize = 0;
        proof {
            assert(whole.skip(0) =~= whole);
        }
        while i < self.config_file.char_options.len()
            invariant
                i <= whole.len(),
                whole == self.config_file.char_options@,
                spec_find_char_behaviours(whole, *option_name) == spec_find_char_behaviours(
                    whole.skip(i as int),
                    *option_name,
                ),
            decreases whole.len() - i,
        {
            let entry = &self.config_file.char_options[i];
            proof {
                assert(whole.skip(i as int)[0] == whole[i as int]);
                assert(whole.skip(i as int).skip(1) =~= whole.skip(i + 1));
            }
            if entry.option_name == *option_name {
                return Ok(clone_string_vec(&entry.behaviours));
            }
            i = i + 1;
        }
        let mut m = String::new();
        m.append("unknown char option: ");
        chars_util::push_char(&mut m, *option_name);
        proof {
            assert(Seq::<char>::empty() + "unknown char option: "@ =~= "unknown char option: "@);
        }
        Err(m)
    }

    /// Behaviour tags of a long option, from the grammar document.
    pub fn get_behaviours_for_string_option(&self, option_name: &str) -> (r: Result<
        Vec<String>,
        String,
    >)
        ensures
            match r {
                Ok(tags) => spec_find_string_behaviours(
                    self.config_file.string_options@,
                    option_name@,
                ) == Some(tags.deep_view()),
                Err(m) => spec_find_string_behaviours(
                    self.config_file.string_options@,
                    option_name@,
                ) is None && m@ == msg_unknown_string_option(option_name@),
            },
    {
        let ghost whole = self.config_file.string_options@;
        let mut i: usize = 0;
        proof {
            assert(whole.skip(0) =~= whole);
        }
        while i < self.config_file.string_options.len()
            invariant
                i <= whole.len(),
                whole == self.config_file.string_options@,
                spec_find_string_behaviours(whole, option_name@) == spec_find_string_behaviours(
                    whole.skip(i as int),
                    option_name@,
                ),
            decreases whole.len() - i,
        {
            let entry = &self.config_file.string_options[i];
            proof {
                assert(whole.skip(i as int)[0] == whole[i as int]);
                assert(whole.skip(i as int).skip(1) =~= whole.skip(i + 1));
            }
            if chars_util::str_eq(entry.option_name.as_str(), option_name) {
                return Ok(clone_string_vec(&entry.behaviours));
            }
            i = i + 1;
        }
        let mut m = String::new();
        m.append("unknown string option: ");
        m.append(option_name);
        proof {
            assert(Seq::<char>::empty() + "unknown string option: "@ =~= "unknown string option: "@);
        }
        Err(m)
    }

    /// Behaviour tags of an option name of either kind, dispatching on its
    /// length.
    pub fn get_behaviours(&self, name: &String) -> (r: Result<Vec<String>, String>)
        ensures
            match r {
                Ok(tags) => spec_behaviours(*self, name@) == Some(tags.deep_view()),
                Err(m) => spec_behaviours(*self, name@) is None && m@ == (if name@.len() == 1 {
                    msg_unknown_char_option(name@[0])
                } else {
                    msg_unknown_string_option(name@)
                }),
            },
    {
        if name.as_str().unicode_len() == 1 {
            let c = name.as_str().get_char(0);
            self.get_behaviours_for_char_option(&c)
        } else {
            self.get_behaviours_for_string_option(name.as_str())
        }
    }

    /// Splits an unrecognized long-option token at a configured separator
    /// into a known long option name and the value after it, preferring the
    /// longest known prefix; `None` when no position qualifies.
    pub fn try_split_embedded_option(&self, option_str: &str) -> (r: Option<(String, String)>)
        ensures
            match r {
                Some(pair) => spec_best_split(*self, option_str@) matches Some(p) && pair.0@
                    == option_str@.take(p) && pair.1@ == option_str@.skip(p + 1),
                None => spec_best_split(*self, option_str@) is None,
            },
    {
        let v = chars_util::str_to_chars(option_str);
        let n = v.len();
        let mut p: usize = n;
        while p > 0
            invariant
                p <= n,
                n == v@.len(),
                v@ == option_str@,
                spec_best_split(*self, option_str@) == spec_best_split_upto(
                    *self,
                    option_str@,
                    p as int,
                ),
            decreases p,
        {
            p = p - 1;
            if self.is_separator(v[p]) {
                let known = self.lookup_string_opt_prefix(&v, p);
                if known {
                    let name = chars_util::chars_to_string(vstd::slice::slice_subrange(
                        v.as_slice(),
                        0,
                        p,
                    ));
                    let value = chars_util::chars_to_string(vstd::slice::slice_subrange(
                        v.as_slice(),
                        p + 1,
                        n,
                    ));
                    proof {
                        assert(v@.subrange(0, p as int) =~= option_str@.take(p as int));
                        assert(v@.subrange(p + 1, n as int) =~= option_str@.skip(p + 1));
                        assert(spec_split_candidate(*self, option_str@, p as int));
                    }
                    return Some((name, value));
                }
            }
            proof {
                assert(!spec_split_candidate(*self, option_str@, p as int));
            }
        }
        None
    }

    /// Whether `v[0..to]` is a known long option name.
    fn lookup_string_opt_prefix(&self, v: &Vec<char>, to: usize) -> (r: bool)
        requires
            to <= v@.len(),
        ensures
            r == (spec_string_option(*self, v@.subrange(0, to as int)) is Some),
    {
        let ghost whole = self.string_options@;
        let ghost name = v@.subrange(0, to as int);
        let mut i: usize = 0;
        proof {
            assert(whole.skip(0) =~= whole);
        }
        while i < self.string_options.len()
            invariant
                i <= whole.len(),
                to <= v@.len(),
                whole == self.string_options@,
                name == v@.subrange(0, to as int),
                spec_find_string_opt(whole, name) == spec_find_string_opt(
                    whole.skip(i as int),
                    name,
                ),
            decreases whole.len() - i,
        {
            let entry = &self.string_options[i];
            proof {
                assert(whole.skip(i as int)[0] == whole[i as int]);
                assert(whole.skip(i as int).skip(1) =~= whole.skip(i + 1));
            }
            if string_eq_chars_prefix(entry.0.as_str(), v.as_slice(), to) {
                return true;
            }
            i = i + 1;
        }
        false
    }
}

} // verus!
