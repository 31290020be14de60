//! A read-mostly store of resolved grammars by program name.
//!
//! The store itself is pure: looking a grammar up never loads anything.
//! A caller that misses loads the grammar document by whatever means it has
//! and puts the resolved grammar in; every later parse for that program
//! reads the same immutable value.

use vstd::prelude::*;

use crate::chars_util;
use crate::parser_config::ParserConfig;

verus! {

/// First grammar stored under the given program name.
pub open spec fn spec_cache_lookup(
    entries: Seq<(String, ParserConfig)>,
    name: Seq<char>,
) -> Option<ParserConfig>
    decreases entries.len(),
{
    if entries.len() == 0 {
        None
    } else if entries[0].0@ == name {
        Some(entries[0].1)
    } else {
        spec_cache_lookup(entries.skip(1), name)
    }
}

/// A missing lookup means no entry at all carries the name.
pub proof fn lemma_cache_lookup_none(entries: Seq<(String, ParserConfig)>, name: Seq<char>)
    ensures
        (spec_cache_lookup(entries, name) is None) <==> (forall|i: int|
            0 <= i < entries.len() ==> (#[trigger] entries[i]).0@ != name),
    decreases entries.len(),
{
    if entries.len() > 0 && entries[0].0@ != name {
        lemma_cache_lookup_none(entries.skip(1), name);
        let t = entries.skip(1);
        if spec_cache_lookup(entries, name) is None {
            assert forall|i: int| 0 <= i < entries.len() implies (#[trigger] entries[i]).0@
                != name by {
                if i > 0 {
                    assert(t[i - 1] == entries[i]);
                }
            }
        } else {
            let i = choose|i: int| 0 <= i < t.len() && (#[trigger] t[i]).0@ == name;
            assert(entries[i + 1] == t[i]);
        }
    }
}

pub open spec fn msg_config_not_cached(name: Seq<char>) -> Seq<char> {
    "no grammar cached for program: "@ + name
}

/// The grammar store: one entry per program name.
#[derive(Debug)]
pub struct ParserConfigCache {
    entries: Vec<(String, ParserConfig)>,
}

impl ParserConfigCache {
    /// At most one entry per program name.
    pub closed spec fn wf(&self) -> bool {
        forall|i: int, j: int|
            0 <= i < j < self.entries@.len() ==> (#[trigger] self.entries@[i]).0@ != (
            #[trigger] self.entries@[j]).0@
    }

    pub closed spec fn spec_lookup(&self, name: Seq<char>) -> Option<ParserConfig> {
        spec_cache_lookup(self.entries@, name)
    }

    pub closed spec fn spec_len(&self) -> nat {
        self.entries@.len()
    }

    /// An empty store.
    pub fn new() -> (r: ParserConfigCache)
        ensures
            r.wf(),
            r.spec_len() == 0,
            forall|n: Seq<char>| r.spec_lookup(n) is None,
    {
        ParserConfigCache { entries: Vec::new() }
    }

    /// The grammar stored for a program name; an error when none is.
    pub fn get_config(&self, program: &str) -> (r: Result<&ParserConfig, String>)
        ensures
            match r {
                Ok(cfg) => self.spec_lookup(program@) == Some(*cfg),
                Err(m) => self.spec_lookup(program@) is None && m@ == msg_config_not_cached(
                    program@,
                ),
            },
    {
        let ghost whole = self.entries@;
        let mut i: usize = 0;
        proof {
            assert(whole.skip(0) =~= whole);
        }
        while i < self.entries.len()
            invariant
                i <= whole.len(),
                whole == self.entries@,
                spec_cache_lookup(whole, program@) == spec_cache_lookup(
                    whole.skip(i as int),
                    program@,
                ),
            decreases whole.len() - i,
        {
            let entry = &self.entries[i];
            proof {
                assert(whole.skip(i as int)[0] == whole[i as int]);
                assert(whole.skip(i as int).skip(1) =~= whole.skip(i + 1));
            }
            if chars_util::str_eq(entry.0.as_str(), program) {
                return Ok(&entry.1);
            }
            i = i + 1;
        }
        let mut m = String::new();
        m.append("no grammar cached for program: ");
        m.append(program);
        proof {
            assert(Seq::<char>::empty() + "no grammar cached for program: "@
                =~= "no grammar cached for program: "@);
        }
        Err(m)
    }

    /// Stores the resolved grammar for a program that has none yet.
    pub fn insert(&mut self, program: String, config: ParserConfig)
        requires
            old(self).wf(),
            old(self).spec_lookup(program@) is None,
        ensures
            final(self).wf(),
            final(self).spec_lookup(program@) == Some(config),
            final(self).spec_len() == old(self).spec_len() + 1,
            forall|n: Seq<char>|
                n != program@ ==> final(self).spec_lookup(n) == old(self).spec_lookup(n),
    {
        let ghost old_e = self.entries@;
        self.entries.insert(0, (program, config));
        proof {
            lemma_cache_lookup_none(old_e, self.entries@[0].0@);
            assert(self.entries@.skip(1) =~= old_e);
            assert forall|n: Seq<char>|
                n != self.entries@[0].0@ implies spec_cache_lookup(self.entries@, n)
                == spec_cache_lookup(old_e, n) by {
                assert(spec_cache_lookup(self.entries@, n) == spec_cache_lookup(
                    self.entries@.skip(1),
                    n,
                ));
            }
            assert forall|i: int, j: int|
                0 <= i < j < self.entries@.len() implies (#[trigger] self.entries@[i]).0@ != (
            #[trigger] self.entries@[j]).0@ by {
                if i > 0 {
                    assert(self.entries@[i] == old_e[i - 1]);
                    assert(self.entries@[j] == old_e[j - 1]);
                } else {
                    assert(self.entries@[j] == old_e[j - 1]);
                }
            }
        }
    }

    /// Empties the store.
    pub fn clear(&mut self)
        ensures
            final(self).wf(),
            final(self).spec_len() == 0,
            forall|n: Seq<char>| final(self).spec_lookup(n) is None,
    {
        self.entries.clear();
    }

    /// Number of stored grammars.
    pub fn size(&self) -> (r: usize)
        ensures
            r == self.spec_len(),
    {
        self.entries.len()
    }
}

} // verus!
