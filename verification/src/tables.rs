//! The handle tables a style word and a grapheme point into: extended styles, hyperlink URIs and
//! grapheme clusters. Each interns: asking for the same content twice answers the same handle.
use vstd::prelude::*;
use crate::style::{ExtStyle, LinkId};

verus! {

/// The first index of `e` in `s`, where it occurs.
pub open spec fn first_index<T>(s: Seq<T>, e: T, i: int) -> bool {
    0 <= i < s.len() && s[i] == e && forall|j: int| 0 <= j < i ==> s[j] != e
}

/// The extended-style table: one entry per distinct [`ExtStyle`], addressed by its position.
pub struct ExtTable {
    pub entries: Vec<ExtStyle>,
}

impl ExtTable {
    pub fn new() -> (t: ExtTable)
        ensures
            t.entries@.len() == 0,
    {
        ExtTable { entries: Vec::new() }
    }

    /// The entry a handle names, or `None` for a handle this table never minted.
    pub fn get(&self, h: u64) -> (e: Option<ExtStyle>)
        ensures
            h < self.entries@.len() ==> e == Some(self.entries@[h as int]),
            h >= self.entries@.len() ==> e is None,
    {
        if h < self.entries.len() as u64 {
            Some(self.entries[h as usize])
        } else {
            None
        }
    }

    pub fn len(&self) -> (n: usize)
        ensures
            n == self.entries@.len(),
    {
        self.entries.len()
    }

    pub fn is_empty(&self) -> (b: bool)
        ensures
            b == (self.entries@.len() == 0),
    {
        self.entries.len() == 0
    }

    /// The handle of `e`: the first entry equal to it, or a new entry at the end.
    pub fn handle(&mut self, e: ExtStyle) -> (h: u64)
        requires
            old(self).entries@.len() < u64::MAX,
        ensures
            old(self).entries@.contains(e) ==> final(self).entries@ == old(self).entries@,
            !old(self).entries@.contains(e) ==> final(self).entries@ == old(self).entries@.push(e),
            first_index(final(self).entries@, e, h as int),
    {
        let mut i: usize = 0;
        while i < self.entries.len()
            invariant
                0 <= i <= self.entries@.len(),
                self.entries@ == old(self).entries@,
                forall|j: int| 0 <= j < i ==> self.entries@[j] != e,
            decreases self.entries@.len() - i,
        {
            if self.entries[i] == e {
                return i as u64;
            }
            i = i + 1;
        }
        let n = self.entries.len();
        self.entries.push(e);
        assert(!old(self).entries@.contains(e)) by {
            if old(self).entries@.contains(e) {
                let k = choose|k: int| 0 <= k < old(self).entries@.len() && old(self).entries@[k] == e;
                assert(self.entries@[k] != e);
            }
        }
        n as u64
    }
}

/// The hyperlink table: one entry per distinct URI. [`LinkId`] `n` names entry `n - 1`.
pub struct LinkTable {
    pub uris: Vec<String>,
}

/// The URIs of a link table, as character sequences.
pub open spec fn uri_view(uris: Seq<String>) -> Seq<Seq<char>> {
    uris.map_values(|s: String| s@)
}

impl LinkTable {
    pub fn new() -> (t: LinkTable)
        ensures
            t.uris@.len() == 0,
    {
        LinkTable { uris: Vec::new() }
    }

    pub fn is_empty(&self) -> (b: bool)
        ensures
            b == (self.uris@.len() == 0),
    {
        self.uris.len() == 0
    }

    /// Every URI this table holds, in the order they were minted.
    pub fn entries(&self) -> (e: &[String])
        ensures
            e@ == self.uris@,
    {
        self.uris.as_slice()
    }

    /// The id of `uri`: the first entry equal to it, or a new entry at the end.
    pub fn link(&mut self, uri: &str) -> (l: LinkId)
        requires
            old(self).uris@.len() + 1 < u32::MAX,
        ensures
            uri_view(old(self).uris@).contains(uri@) ==> final(self).uris@ == old(self).uris@,
            !uri_view(old(self).uris@).contains(uri@) ==> uri_view(final(self).uris@) == uri_view(
                old(self).uris@,
            ).push(uri@),
            final(self).uris@.len() <= old(self).uris@.len() + 1,
            l.id >= 1,
            first_index(uri_view(final(self).uris@), uri@, l.id - 1),
    {
        let owned = uri.to_owned();
        let mut i: usize = 0;
        while i < self.uris.len()
            invariant
                0 <= i <= self.uris@.len(),
                self.uris@ == old(self).uris@,
                self.uris@.len() + 1 < u32::MAX,
                owned@ == uri@,
                forall|j: int| 0 <= j < i ==> self.uris@[j]@ != uri@,
            decreases self.uris@.len() - i,
        {
            if self.uris[i] == owned {
                assert(uri_view(old(self).uris@)[i as int] == uri@);
                return LinkId { id: (i + 1) as u32 };
            }
            i = i + 1;
        }
        let n = self.uris.len();
        self.uris.push(owned);
        assert(uri_view(self.uris@) =~= uri_view(old(self).uris@).push(uri@));
        assert(!uri_view(old(self).uris@).contains(uri@)) by {
            if uri_view(old(self).uris@).contains(uri@) {
                let k = choose|k: int|
                    0 <= k < uri_view(old(self).uris@).len() && uri_view(old(self).uris@)[k]
                        == uri@;
                assert(self.uris@[k]@ != uri@);
            }
        }
        LinkId { id: (n + 1) as u32 }
    }

    /// The URI a link names, or `None` for no link and for an id this table never minted.
    pub fn uri(&self, l: LinkId) -> (u: Option<&str>)
        ensures
            (l.id >= 1 && l.id - 1 < self.uris@.len()) ==> (u matches Some(s) && s@ == self.uris@[l.id - 1]@),
            !(l.id >= 1 && l.id - 1 < self.uris@.len()) ==> u is None,
    {
        if l.id >= 1 && ((l.id - 1) as usize) < self.uris.len() {
            Some(self.uris[(l.id - 1) as usize].as_str())
        } else {
            None
        }
    }
}

/// The grapheme-cluster interner: the UTF-8 bytes of every multi-scalar cluster a cell names.
pub struct Interner {
    pub clusters: Vec<Vec<u8>>,
}

impl Interner {
    pub fn new() -> (t: Interner)
        ensures
            t.clusters@.len() == 0,
    {
        Interner { clusters: Vec::new() }
    }

    /// The bytes of cluster `id`, or `None` for an id this interner never minted.
    pub fn cluster(&self, id: u32) -> (b: Option<&[u8]>)
        ensures
            (id as int) < self.clusters@.len() ==> (b matches Some(s) && s@ == self.clusters@[id as int]@),
            (id as int) >= self.clusters@.len() ==> b is None,
    {
        if (id as usize) < self.clusters.len() {
            Some(self.clusters[id as usize].as_slice())
        } else {
            None
        }
    }
}

/// The three tables a surface's cells point into, and whether links are worth keeping at all.
pub struct Tables {
    pub exts: ExtTable,
    pub links: LinkTable,
    pub interner: Interner,
    /// Whether a hyperlink survives into an intern key. False on a terminal with no OSC 8, where
    /// a link is not a cost worth paying.
    pub links_in_key: bool,
}

impl Tables {
    pub fn new() -> (t: Tables)
        ensures
            t.exts.entries@.len() == 0,
            t.links.uris@.len() == 0,
            t.interner.clusters@.len() == 0,
            t.links_in_key,
            t.wf(),
    {
        Tables { exts: ExtTable::new(), links: LinkTable::new(), interner: Interner::new(), links_in_key: true }
    }

    /// What interning keeps true of the extended table: every entry needs the table, is its own
    /// key, and occurs once, so the handle of an entry is its position.
    pub open spec fn wf(&self) -> bool {
        forall|i: int| 0 <= i < self.exts.entries@.len() ==> {
            &&& (#[trigger] self.exts.entries@[i]).spec_is_extended()
            &&& self.spec_key(self.exts.entries@[i]) == self.exts.entries@[i]
            &&& first_index(self.exts.entries@, self.exts.entries@[i], i)
        }
    }

    pub open spec fn spec_key(&self, e: ExtStyle) -> ExtStyle {
        if self.links_in_key {
            e
        } else {
            ExtStyle { link: LinkId { id: 0 }, ..e }
        }
    }

    /// The entry as it is interned: the link dropped where links are not kept.
    pub fn key(&self, e: ExtStyle) -> (k: ExtStyle)
        ensures
            k == self.spec_key(e),
    {
        if self.links_in_key {
            e
        } else {
            ExtStyle { link: LinkId::none(), ..e }
        }
    }

    /// Intern a URI.
    pub fn link(&mut self, uri: &str) -> (l: LinkId)
        requires
            old(self).links.uris@.len() + 1 < u32::MAX,
        ensures
            final(self).exts == old(self).exts,
            final(self).interner == old(self).interner,
            final(self).links_in_key == old(self).links_in_key,
            final(self).wf() == old(self).wf(),
            uri_view(old(self).links.uris@).contains(uri@) ==> final(self).links.uris@ == old(
                self,
            ).links.uris@,
            !uri_view(old(self).links.uris@).contains(uri@) ==> uri_view(final(self).links.uris@)
                == uri_view(old(self).links.uris@).push(uri@),
            final(self).links.uris@.len() <= old(self).links.uris@.len() + 1,
            l.id >= 1,
            first_index(uri_view(final(self).links.uris@), uri@, l.id - 1),
    {
        self.links.link(uri)
    }
}

} // verus!
