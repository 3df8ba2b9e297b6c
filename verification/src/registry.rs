//! The template registry: one flat namespace of template sources,
//! addressed by identifier, with duplicate registration refused.

use vstd::prelude::*;

use crate::errors::RegistrationError;

verus! {

/// One named template source: an identifier and the template text.
pub struct TemplateSource {
    pub name: String,
    pub content: String,
}

/// A registry of template sources with pairwise distinct identifiers,
/// always holding the reserved entry `main`.
pub struct TemplateRegistry {
    entries: Vec<TemplateSource>,
}

/// The mapping the entry list denotes.
pub open spec fn reg_map(s: Seq<TemplateSource>) -> Map<Seq<char>, Seq<char>>
    decreases s.len(),
{
    if s.len() == 0 {
        Map::empty()
    } else {
        reg_map(s.drop_last()).insert(s.last().name@, s.last().content@)
    }
}

/// Every listed name is in the denoted mapping.
proof fn lemma_reg_map_contains(s: Seq<TemplateSource>, i: int)
    requires
        0 <= i < s.len(),
    ensures
        reg_map(s).contains_key(s[i].name@),
    decreases s.len(),
{
    if i < s.len() - 1 {
        lemma_reg_map_contains(s.drop_last(), i);
    }
}

/// A name no entry holds is absent from the denoted mapping.
proof fn lemma_reg_map_absent(s: Seq<TemplateSource>, n: Seq<char>)
    requires
        forall|i: int| 0 <= i < s.len() ==> (#[trigger] s[i]).name@ != n,
    ensures
        !reg_map(s).contains_key(n),
    decreases s.len(),
{
    if s.len() > 0 {
        lemma_reg_map_absent(s.drop_last(), n);
    }
}

/// With distinct names, each entry gives its own content.
proof fn lemma_reg_map_index(s: Seq<TemplateSource>, i: int)
    requires
        0 <= i < s.len(),
        forall|i1: int, i2: int|
            0 <= i1 < i2 < s.len() ==> (#[trigger] s[i1]).name@ != (#[trigger] s[i2]).name@,
    ensures
        reg_map(s).contains_key(s[i].name@),
        reg_map(s)[s[i].name@] == s[i].content@,
    decreases s.len(),
{
    if i < s.len() - 1 {
        lemma_reg_map_index(s.drop_last(), i);
        assert(s.drop_last()[i] == s[i]);
        assert(s.last().name@ != s[i].name@);
    }
}

impl TemplateRegistry {
    /// The entry list, in registration order.
    pub closed spec fn entries_seq(&self) -> Seq<TemplateSource> {
        self.entries@
    }

    /// Identifiers are pairwise distinct.
    pub closed spec fn wf(&self) -> bool {
        forall|i1: int, i2: int|
            0 <= i1 < i2 < self.entries@.len() ==> (#[trigger] self.entries@[i1]).name@ != (
            #[trigger] self.entries@[i2]).name@
    }

    /// The namespace this registry holds.
    pub closed spec fn view(&self) -> Map<Seq<char>, Seq<char>> {
        reg_map(self.entries@)
    }

    /// A fresh registry holding exactly the reserved `main` template.
    pub fn new(main_content: String) -> (r: TemplateRegistry)
        ensures
            r.wf(),
            r@ == Map::<Seq<char>, Seq<char>>::empty().insert("main"@, main_content@),
    {
        let mut entries: Vec<TemplateSource> = Vec::new();
        entries.push(TemplateSource { name: String::from_str("main"), content: main_content });
        proof {
            assert(entries@.drop_last() =~= Seq::<TemplateSource>::empty());
            assert(reg_map(Seq::<TemplateSource>::empty()) == Map::<Seq<char>, Seq<char>>::empty());
        }
        TemplateRegistry { entries }
    }

    /// Registers one fragment.  A name already present is refused with
    /// `DuplicateIdentifier` and leaves the registry unchanged; a new
    /// name is added.
    pub fn register(&mut self, name: String, content: String) -> (r: Result<
        (),
        RegistrationError,
    >)
        requires
            old(self).wf(),
        ensures
            final(self).wf(),
            old(self)@.contains_key(name@) ==> r == Err::<(), RegistrationError>(
                RegistrationError::DuplicateIdentifier,
            ) && final(self)@ == old(self)@,
            !old(self)@.contains_key(name@) ==> r == Ok::<(), RegistrationError>(())
                && final(self)@ == old(self)@.insert(name@, content@),
    {
        let n = self.entries.len();
        let mut i: usize = 0;
        while i < n
            invariant
                old(self).wf(),
                self.entries@ == old(self).entries@,
                n == self.entries@.len(),
                i <= n,
                forall|k: int| 0 <= k < i ==> (#[trigger] self.entries@[k]).name@ != name@,
            decreases n - i,
        {
            if self.entries[i].name == name {
                proof {
                    lemma_reg_map_contains(self.entries@, i as int);
                }
                return Err(RegistrationError::DuplicateIdentifier);
            }
            i = i + 1;
        }
        proof {
            lemma_reg_map_absent(self.entries@, name@);
        }
        let ghost pre = self.entries@;
        self.entries.push(TemplateSource { name, content });
        proof {
            assert(self.entries@.drop_last() =~= pre);
        }
        Ok(())
    }

    /// Looks an identifier up; `Some` exactly when it is registered.
    pub fn get(&self, name: &String) -> (r: Option<&String>)
        requires
            self.wf(),
        ensures
            r is Some <==> self@.contains_key(name@),
            r matches Some(c) ==> self@[name@] == c@,
    {
        let n = self.entries.len();
        let mut i: usize = 0;
        while i < n
            invariant
                self.wf(),
                n == self.entries@.len(),
                i <= n,
                forall|k: int| 0 <= k < i ==> (#[trigger] self.entries@[k]).name@ != name@,
            decreases n - i,
        {
            if self.entries[i].name == *name {
                proof {
                    lemma_reg_map_index(self.entries@, i as int);
                }
                return Some(&self.entries[i].content);
            }
            i = i + 1;
        }
        proof {
            lemma_reg_map_absent(self.entries@, name@);
        }
        None
    }

    /// How many templates are registered.
    pub fn len(&self) -> (r: usize)
        ensures
            r == self.entries_seq().len(),
    {
        self.entries.len()
    }

    /// The source registered at position `i`, in registration order.
    pub fn entry_at(&self, i: usize) -> (r: &TemplateSource)
        requires
            i < self.entries_seq().len(),
        ensures
            r == self.entries_seq()[i as int],
            self.wf() ==> self@.contains_key(r.name@) && self@[r.name@] == r.content@,
    {
        proof {
            if self.wf() {
                lemma_reg_map_index(self.entries@, i as int);
            }
        }
        &self.entries[i]
    }
}

} // verus!
