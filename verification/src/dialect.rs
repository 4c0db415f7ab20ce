use crate::interner::Interner;
use crate::lexicon::SimpleLexicon;
use crate::text::str_bytes;
use vstd::prelude::*;
use vstd::string::StringSliceAdditionalSpecFns;

verus! {

/// A language: its name, its lexicon, and the table of its words.
#[derive(Debug)]
pub struct Dialect {
    name: Vec<u8>,
    lexicon: SimpleLexicon,
    interner: Interner,
}

impl Dialect {
    /// The dialect named `name` with the given lexicon and word table.
    pub fn new(name: &str, lexicon: SimpleLexicon, interner: Interner) -> (r: Self)
        ensures
            r.name_view() == name.spec_bytes(),
            r.lexicon_view() == lexicon@,
            r.interner_view() == interner@,
            r.wf() == interner.wf(),
    {
        Dialect { name: str_bytes(name), lexicon, interner }
    }

    pub closed spec fn name_view(&self) -> Seq<u8> {
        self.name@
    }

    pub closed spec fn lexicon_view(&self) -> Seq<(crate::syntax::ValueV, crate::lexicon::EntryV)> {
        self.lexicon@
    }

    pub closed spec fn interner_view(&self) -> Seq<Seq<u8>> {
        self.interner@
    }

    /// The word table is well formed.
    pub closed spec fn wf(&self) -> bool {
        self.interner.wf()
    }

    /// The name, as bytes.
    pub fn name(&self) -> (r: &Vec<u8>)
        ensures
            r@ == self.name_view(),
    {
        &self.name
    }

    pub fn lexicon(&self) -> (r: &SimpleLexicon)
        ensures
            r@ == self.lexicon_view(),
    {
        &self.lexicon
    }

    pub fn interner(&self) -> (r: &Interner)
        ensures
            r@ == self.interner_view(),
            self.wf() ==> r.wf(),
    {
        &self.interner
    }
}

} // verus!
