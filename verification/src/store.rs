//! The link store: an in-memory collection of links keyed by title, with
//! validated mutation and snapshot serialization. The collection's model is
//! a map from title to url; every entry also keeps its title equal to the
//! key it is filed under, titles are unique, and titles and urls are
//! non-empty.

use crate::codec::{
    bytes_eq, distinct_titles, links_views, parse_snapshot, parse_snapshot_spec, render_snapshot,
    render_snapshot_spec, wf_entry, wf_views,
};
use vstd::prelude::*;

verus! {

broadcast use vstd::set::group_set_axioms;

/// A link: a title (also its key in the collection) and a URL.
/// Both are byte strings; the URL is opaque and never parsed.
pub struct Link {
    pub title: Vec<u8>,
    pub url: Vec<u8>,
}

impl Link {
    /// The (title, url) pair this link stands for.
    pub open spec fn view_pair(self) -> (Seq<u8>, Seq<u8>) {
        (self.title@, self.url@)
    }
}

/// A rejected mutation: the title or the url was empty.
#[derive(Clone, Copy, Debug, PartialEq, Eq, Structural)]
pub enum ValidationError {
    EmptyField,
}

/// A failed exchange with the snapshot file, for callers that do the I/O:
/// the store itself recovers from read failures by starting empty, and
/// expects write failures to be reported, not swallowed.
#[derive(Clone, Copy, Debug, PartialEq, Eq, Structural)]
pub enum IoError {
    ReadFailed,
    WriteFailed,
}

/// A transient capture of one link's values while the user edits them.
pub struct EditSession {
    pub title: Vec<u8>,
    pub url: Vec<u8>,
}

fn clone_bytes(v: &Vec<u8>) -> (r: Vec<u8>)
    ensures
        r@ == v@,
{
    let mut out: Vec<u8> = Vec::new();
    let mut i: usize = 0;
    while i < v.len()
        invariant
            i <= v@.len(),
            out@ == v@.take(i as int),
        decreases v@.len() - i,
    {
        out.push(v[i]);
        proof {
            assert(out@ =~= v@.take(i as int + 1));
        }
        i += 1;
    }
    proof {
        assert(v@.take(v@.len() as int) =~= v@);
    }
    out
}

fn find_index(links: &Vec<Link>, title: &Vec<u8>) -> (r: Option<usize>)
    ensures
        r matches Some(i) ==> i < links@.len() && links@[i as int].title@ == title@,
        r is None ==> forall|n: int| 0 <= n < links@.len() ==> links@[n].title@ != title@,
{
    let mut i: usize = 0;
    while i < links.len()
        invariant
            i <= links@.len(),
            forall|n: int| 0 <= n < i ==> links@[n].title@ != title@,
        decreases links@.len() - i,
    {
        if bytes_eq(&links[i].title, title) {
            return Some(i);
        }
        i += 1;
    }
    None
}

/// The collection's model: later entries win, though well-formed collections
/// never file two entries under one title.
pub open spec fn map_of_views(es: Seq<(Seq<u8>, Seq<u8>)>) -> Map<Seq<u8>, Seq<u8>>
    decreases es.len(),
{
    if es.len() == 0 {
        Map::empty()
    } else {
        map_of_views(es.drop_last()).insert(es.last().0, es.last().1)
    }
}

/// The facts the store needs about its model: the map's domain is exactly
/// the set of titles, each title is mapped to its url, and the map is as
/// large as the entry sequence.
pub proof fn lemma_map_of_views_props(es: Seq<(Seq<u8>, Seq<u8>)>)
    requires
        distinct_titles(es),
    ensures
        map_of_views(es).dom().finite(),
        map_of_views(es).dom().len() == es.len(),
        forall|i: int|
            0 <= i < es.len() ==> map_of_views(es).contains_key((#[trigger] es[i]).0)
                && map_of_views(es)[es[i].0] == es[i].1,
        forall|k: Seq<u8>|
            #[trigger] map_of_views(es).contains_key(k) ==> exists|i: int|
                0 <= i < es.len() && (#[trigger] es[i]).0 == k,
    decreases es.len(),
{
    if es.len() > 0 {
        let es0 = es.drop_last();
        let e = es.last();
        assert(distinct_titles(es0)) by {
            assert(forall|i: int, j: int|
                0 <= i < es0.len() && 0 <= j < es0.len() && i != j ==> (#[trigger] es0[i]).0 != (
                #[trigger] es0[j]).0);
        }
        lemma_map_of_views_props(es0);
        let m0 = map_of_views(es0);
        assert(!m0.contains_key(e.0)) by {
            if m0.contains_key(e.0) {
                let i = choose|i: int| 0 <= i < es0.len() && (#[trigger] es0[i]).0 == e.0;
                assert(es[i].0 == es[es.len() - 1].0);
                assert(false);
            }
        }
        assert(map_of_views(es) == m0.insert(e.0, e.1));
        assert forall|i: int| 0 <= i < es.len() implies map_of_views(es).contains_key(
            (#[trigger] es[i]).0,
        ) && map_of_views(es)[es[i].0] == es[i].1 by {
            if i < es.len() - 1 {
                assert(es[i] == es0[i]);
                assert(es[i].0 != e.0);
            }
        }
    }
}

// ---------------------------------------------------------------------------
// Model lemmas for the mutations
// ---------------------------------------------------------------------------

/// Overwriting the entry filed under a title updates that title's url.
proof fn lemma_map_of_views_update(es: Seq<(Seq<u8>, Seq<u8>)>, i: int, e: (Seq<u8>, Seq<u8>))
    requires
        distinct_titles(es),
        0 <= i < es.len(),
        es[i].0 == e.0,
    ensures
        map_of_views(es.update(i, e)) == map_of_views(es).insert(e.0, e.1),
    decreases es.len(),
{
    let es2 = es.update(i, e);
    let es0 = es.drop_last();
    assert(distinct_titles(es0)) by {
        assert(forall|a: int, b: int|
            0 <= a < es0.len() && 0 <= b < es0.len() && a != b ==> (#[trigger] es0[a]).0 != (
            #[trigger] es0[b]).0);
    }
    if i == es.len() - 1 {
        assert(es2.drop_last() =~= es0);
        assert(es2.last() == e);
        assert(map_of_views(es2) == map_of_views(es0).insert(e.0, e.1));
        assert(map_of_views(es0).insert(es[i].0, es[i].1).insert(e.0, e.1) =~= map_of_views(
            es0,
        ).insert(e.0, e.1));
    } else {
        let last = es.last();
        assert(es2.drop_last() =~= es0.update(i, e));
        assert(es2.last() == last);
        lemma_map_of_views_update(es0, i, e);
        assert(map_of_views(es2) == map_of_views(es0).insert(e.0, e.1).insert(last.0, last.1));
        assert(e.0 != last.0);
        assert(map_of_views(es0).insert(e.0, e.1).insert(last.0, last.1) =~= map_of_views(
            es0,
        ).insert(last.0, last.1).insert(e.0, e.1));
    }
}

/// Removing the entry filed under a title removes that title from the model.
proof fn lemma_map_of_views_remove(es: Seq<(Seq<u8>, Seq<u8>)>, i: int)
    requires
        distinct_titles(es),
        0 <= i < es.len(),
    ensures
        map_of_views(es.remove(i)) == map_of_views(es).remove(es[i].0),
    decreases es.len(),
{
    let es0 = es.drop_last();
    assert(distinct_titles(es0)) by {
        assert(forall|a: int, b: int|
            0 <= a < es0.len() && 0 <= b < es0.len() && a != b ==> (#[trigger] es0[a]).0 != (
            #[trigger] es0[b]).0);
    }
    if i == es.len() - 1 {
        assert(es.remove(i) =~= es0);
        lemma_map_of_views_props(es0);
        assert(!map_of_views(es0).contains_key(es[i].0)) by {
            if map_of_views(es0).contains_key(es[i].0) {
                let a = choose|a: int| 0 <= a < es0.len() && (#[trigger] es0[a]).0 == es[i].0;
                assert(es[a].0 == es[i].0);
                assert(false);
            }
        }
        assert(map_of_views(es0).insert(es[i].0, es[i].1).remove(es[i].0) =~= map_of_views(es0));
    } else {
        let last = es.last();
        assert(es.remove(i).drop_last() =~= es0.remove(i));
        assert(es.remove(i).last() == last);
        lemma_map_of_views_remove(es0, i);
        assert(map_of_views(es.remove(i)) == map_of_views(es0).remove(es[i].0).insert(
            last.0,
            last.1,
        ));
        assert(es[i].0 == es0[i].0);
        assert(es[i].0 != last.0);
        assert(map_of_views(es0).remove(es[i].0).insert(last.0, last.1) =~= map_of_views(
            es0,
        ).insert(last.0, last.1).remove(es[i].0));
    }
}

// ---------------------------------------------------------------------------
// The store
// ---------------------------------------------------------------------------

/// The link collection. Its model (`@`) is a map from title to url; its
/// entries also have a stable order, which the snapshot serializer follows.
pub struct LinkStore {
    links: Vec<Link>,
}

impl View for LinkStore {
    type V = Map<Seq<u8>, Seq<u8>>;

    open spec fn view(&self) -> Map<Seq<u8>, Seq<u8>> {
        map_of_views(self.entry_views())
    }
}

impl LinkStore {
    /// The store's entries, in order, as (title, url) pairs.
    pub closed spec fn entry_views(self) -> Seq<(Seq<u8>, Seq<u8>)> {
        links_views(self.links@)
    }

    /// Well-formed: unique titles, and no empty title or url.
    pub open spec fn wf(self) -> bool {
        wf_views(self.entry_views())
    }

    /// The empty collection.
    pub fn new() -> (s: LinkStore)
        ensures
            s.wf(),
            s@ == Map::<Seq<u8>, Seq<u8>>::empty(),
            s.entry_views() == Seq::<(Seq<u8>, Seq<u8>)>::empty(),
    {
        let s = LinkStore { links: Vec::new() };
        proof {
            assert(s.entry_views() =~= Seq::<(Seq<u8>, Seq<u8>)>::empty());
        }
        s
    }

    /// Inserts a link under its title, overwriting any link already filed
    /// there. Rejects an empty title or url without changing the store.
    pub fn add(&mut self, title: Vec<u8>, url: Vec<u8>) -> (r: Result<(), ValidationError>)
        requires
            old(self).wf(),
        ensures
            final(self).wf(),
            r is Err <==> (title@.len() == 0 || url@.len() == 0),
            r is Err ==> *final(self) == *old(self) && r == Err::<(), ValidationError>(
                ValidationError::EmptyField,
            ),
            r is Ok ==> final(self)@ == old(self)@.insert(title@, url@),
    {
        if title.len() == 0 || url.len() == 0 {
            return Err(ValidationError::EmptyField);
        }
        let ghost vs = self.entry_views();
        let found = find_index(&self.links, &title);
        let l = Link { title, url };
        let ghost e = l.view_pair();
        match found {
            Some(i) => {
                self.links[i] = l;
                proof {
                    assert(self.entry_views() =~= vs.update(i as int, e));
                    lemma_map_of_views_update(vs, i as int, e);
                    assert(wf_views(vs.update(i as int, e))) by {
                        let vs2 = vs.update(i as int, e);
                        assert(forall|a: int| 0 <= a < vs2.len() ==> (#[trigger] vs2[a]).0 == vs[
                            a].0);
                        assert(forall|a: int|
                            0 <= a < vs2.len() ==> wf_entry(#[trigger] vs2[a]));
                    }
                }
            },
            None => {
                self.links.push(l);
                proof {
                    assert(self.entry_views() =~= vs.push(e));
                    let vs2 = vs.push(e);
                    assert(vs2.drop_last() =~= vs);
                    assert(vs2.last() == e);
                    assert(map_of_views(vs2) == map_of_views(vs).insert(e.0, e.1));
                    assert(wf_views(vs2)) by {
                        assert(forall|n: int| 0 <= n < vs.len() ==> (#[trigger] vs[n]).0 != e.0);
                        assert(forall|a: int|
                            0 <= a < vs2.len() ==> wf_entry(#[trigger] vs2[a]));
                    }
                }
            },
        }
        Ok(())
    }

    /// Removes the link filed under a title; reports whether one was there.
    /// Deleting an absent title leaves the store untouched.
    pub fn delete(&mut self, title: &Vec<u8>) -> (r: bool)
        requires
            old(self).wf(),
        ensures
            final(self).wf(),
            r == old(self)@.contains_key(title@),
            final(self)@ == old(self)@.remove(title@),
            !r ==> *final(self) == *old(self),
    {
        let ghost vs = self.entry_views();
        proof {
            lemma_map_of_views_props(vs);
        }
        match find_index(&self.links, title) {
            Some(i) => {
                self.links.remove(i);
                proof {
                    assert(self.entry_views() =~= vs.remove(i as int));
                    lemma_map_of_views_remove(vs, i as int);
                    assert(wf_views(vs.remove(i as int))) by {
                        let vs2 = vs.remove(i as int);
                        assert(forall|a: int|
                            0 <= a < vs2.len() ==> (#[trigger] vs2[a]) == (if a < i as int {
                                vs[a]
                            } else {
                                vs[a + 1]
                            }));
                    }
                }
                true
            },
            None => {
                proof {
                    if old(self)@.contains_key(title@) {
                        let n = choose|n: int| 0 <= n < vs.len() && (#[trigger] vs[n]).0 == title@;
                        assert(false);
                    }
                    assert(old(self)@.remove(title@) =~= old(self)@);
                }
                false
            },
        }
    }

    /// Captures a link's current values for editing. `Some` exactly when the
    /// title is present.
    pub fn begin_edit(&self, title: &Vec<u8>) -> (r: Option<EditSession>)
        requires
            self.wf(),
        ensures
            r is Some <==> self@.contains_key(title@),
            r matches Some(s) ==> s.title@ == title@ && s.url@ == self@[title@],
    {
        proof {
            lemma_map_of_views_props(self.entry_views());
        }
        match find_index(&self.links, title) {
            Some(i) => {
                proof {
                    let vs = self.entry_views();
                    assert(vs[i as int] == (self.links@[i as int].title@, self.links@[i as int].url@));
                    assert(self@.contains_key(title@) && self@[title@] == self.links@[i as int].url@);
                }
                let s = EditSession {
                    title: clone_bytes(&self.links[i].title),
                    url: clone_bytes(&self.links[i].url),
                };
                Some(s)
            },
            None => {
                proof {
                    if self@.contains_key(title@) {
                        let vs = self.entry_views();
                        let n = choose|n: int| 0 <= n < vs.len() && (#[trigger] vs[n]).0 == title@;
                        assert(false);
                    }
                }
                None
            },
        }
    }

    /// Commits an edit: files the new values under the new title and drops
    /// the entry the session was begun on (a rename removes the old key).
    /// The same validation as `add` applies; a rejected commit changes
    /// nothing. Dropping a session without committing cancels the edit.
    pub fn commit_edit(
        &mut self,
        session: EditSession,
        new_title: Vec<u8>,
        new_url: Vec<u8>,
    ) -> (r: Result<(), ValidationError>)
        requires
            old(self).wf(),
        ensures
            final(self).wf(),
            r is Err <==> (new_title@.len() == 0 || new_url@.len() == 0),
            r is Err ==> *final(self) == *old(self) && r == Err::<(), ValidationError>(
                ValidationError::EmptyField,
            ),
            r is Ok ==> final(self)@ == old(self)@.remove(session.title@).insert(
                new_title@,
                new_url@,
            ),
    {
        if new_title.len() == 0 || new_url.len() == 0 {
            return Err(ValidationError::EmptyField);
        }
        self.delete(&session.title);
        let r = self.add(new_title, new_url);
        proof {
            assert(r is Ok);
        }
        r
    }

    /// The url filed under a title, if any.
    pub fn get(&self, title: &Vec<u8>) -> (r: Option<&Vec<u8>>)
        requires
            self.wf(),
        ensures
            r is Some <==> self@.contains_key(title@),
            r matches Some(u) ==> u@ == self@[title@],
    {
        proof {
            lemma_map_of_views_props(self.entry_views());
        }
        match find_index(&self.links, title) {
            Some(i) => {
                proof {
                    let vs = self.entry_views();
                    assert(vs[i as int] == (self.links@[i as int].title@, self.links@[i as int].url@));
                    assert(self@.contains_key(title@) && self@[title@] == self.links@[i as int].url@);
                }
                Some(&self.links[i].url)
            },
            None => {
                proof {
                    if self@.contains_key(title@) {
                        let vs = self.entry_views();
                        let n = choose|n: int| 0 <= n < vs.len() && (#[trigger] vs[n]).0 == title@;
                        assert(false);
                    }
                }
                None
            },
        }
    }

    /// How many links the store holds.
    pub fn len(&self) -> (r: usize)
        requires
            self.wf(),
        ensures
            r == self@.dom().len(),
    {
        proof {
            lemma_map_of_views_props(self.entry_views());
        }
        self.links.len()
    }

    /// The titles of all links, in the store's entry order.
    pub fn titles(&self) -> (r: Vec<Vec<u8>>)
        ensures
            r@.len() == self.entry_views().len(),
            forall|i: int| 0 <= i < r@.len() ==> (#[trigger] r@[i])@ == self.entry_views()[i].0,
    {
        let mut out: Vec<Vec<u8>> = Vec::new();
        let mut i: usize = 0;
        while i < self.links.len()
            invariant
                i <= self.links@.len(),
                out@.len() == i,
                forall|n: int| 0 <= n < i ==> (#[trigger] out@[n])@ == self.entry_views()[n].0,
            decreases self.links@.len() - i,
        {
            out.push(clone_bytes(&self.links[i].title));
            i += 1;
        }
        out
    }

    /// Serializes the store to snapshot bytes. The result is a function of
    /// the store alone, so repeated saves with no intervening mutation
    /// produce identical bytes.
    pub fn snapshot(&self) -> (r: Vec<u8>)
        requires
            self.wf(),
        ensures
            r@ == render_snapshot_spec(self.entry_views()),
    {
        render_snapshot(&self.links)
    }

    /// Builds a store from snapshot bytes read by the caller, or `None` for
    /// a missing file. A missing or malformed snapshot yields the empty
    /// store; nothing is reported, matching best-effort startup.
    pub fn load(data: Option<&Vec<u8>>) -> (s: LinkStore)
        ensures
            s.wf(),
            data is None ==> s@ == Map::<Seq<u8>, Seq<u8>>::empty(),
            data matches Some(b) ==> (parse_snapshot_spec(b@) matches Some(es) ==> s.entry_views()
                == es),
            data matches Some(b) ==> (parse_snapshot_spec(b@) is None ==> s@ == Map::<
                Seq<u8>,
                Seq<u8>,
            >::empty()),
    {
        match data {
            None => LinkStore::new(),
            Some(b) => {
                match parse_snapshot(b) {
                    Some(v) => {
                        proof {
                            crate::codec::lemma_parse_snapshot_wf(b@);
                        }
                        LinkStore { links: v }
                    },
                    None => LinkStore::new(),
                }
            },
        }
    }
}

// ---------------------------------------------------------------------------
// Laws
// ---------------------------------------------------------------------------

/// A well-formed store's model is finite and exactly as large as its entry
/// sequence.
pub proof fn lemma_store_size(s: LinkStore)
    requires
        s.wf(),
    ensures
        s@.dom().finite(),
        s@.dom().len() == s.entry_views().len(),
{
    lemma_map_of_views_props(s.entry_views());
}

/// Any entry a store holds survives a persisted round trip: parsing the
/// store's own snapshot recovers its entries exactly, and in particular a
/// just-added link (which `add` guarantees the model contains) is found
/// again under its title with its url. Loading the snapshot therefore
/// yields a store equal, as a map, to the one saved.
pub proof fn lemma_entry_survives_round_trip(s: LinkStore, title: Seq<u8>, url: Seq<u8>)
    requires
        s.wf(),
        s@.contains_key(title),
        s@[title] == url,
    ensures
        parse_snapshot_spec(render_snapshot_spec(s.entry_views())) == Some(s.entry_views()),
        map_of_views(parse_snapshot_spec(render_snapshot_spec(s.entry_views()))->Some_0) == s@,
        map_of_views(parse_snapshot_spec(render_snapshot_spec(s.entry_views()))->Some_0)[title]
            == url,
{
    crate::codec::lemma_snapshot_round_trip(s.entry_views());
}

/// Saving is deterministic: with no intervening mutation, two snapshots of
/// one store are byte-for-byte identical.
pub proof fn lemma_snapshot_deterministic(s: LinkStore, b1: Seq<u8>, b2: Seq<u8>)
    requires
        b1 == render_snapshot_spec(s.entry_views()),
        b2 == render_snapshot_spec(s.entry_views()),
    ensures
        b1 == b2,
{
}

/// Renaming via an edit moves the entry: after committing an edit begun on
/// `old_title` with a different `new_title` (the model `commit_edit`
/// guarantees), the old key is gone, the new key holds the new url, and the
/// collection's size is unchanged — unless the new title was already taken,
/// in which case that entry was overwritten and the size shrinks by one.
pub proof fn lemma_rename_moves_key(
    m: Map<Seq<u8>, Seq<u8>>,
    old_title: Seq<u8>,
    new_title: Seq<u8>,
    new_url: Seq<u8>,
)
    requires
        m.dom().finite(),
        m.contains_key(old_title),
        old_title != new_title,
    ensures
        !m.remove(old_title).insert(new_title, new_url).contains_key(old_title),
        m.remove(old_title).insert(new_title, new_url).contains_key(new_title),
        m.remove(old_title).insert(new_title, new_url)[new_title] == new_url,
        !m.contains_key(new_title) ==> m.remove(old_title).insert(new_title, new_url).dom().len()
            == m.dom().len(),
        m.contains_key(new_title) ==> m.remove(old_title).insert(new_title, new_url).dom().len()
            == m.dom().len() - 1,
{
    let m1 = m.remove(old_title);
    assert(m1.dom() =~= m.dom().remove(old_title));
    assert(m1.insert(new_title, new_url).dom() =~= m1.dom().insert(new_title));
}

} // verus!

