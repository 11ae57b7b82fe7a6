use vstd::prelude::*;

verus! {

use crate::errors::SyncError;

/// Metadata recorded for one fetched document: its identifier, title and
/// summary. A record is immutable once it is in the registry: a later fetch
/// of the same identifier does not overwrite it (first write wins).
#[derive(Debug)]
pub struct DocumentMetadata {
    pub id: String,
    pub title: String,
    pub summary: String,
}

/// The mathematical value of one metadata record: the three fields as
/// character sequences.
#[verifier::ext_equal]
pub struct MetaView {
    pub id: Seq<char>,
    pub title: Seq<char>,
    pub summary: Seq<char>,
}

impl View for DocumentMetadata {
    type V = MetaView;

    open spec fn view(&self) -> MetaView {
        MetaView { id: self.id@, title: self.title@, summary: self.summary@ }
    }
}

impl Clone for DocumentMetadata {
    fn clone(&self) -> (r: Self)
        ensures
            r == *self,
    {
        DocumentMetadata {
            id: self.id.clone(),
            title: self.title.clone(),
            summary: self.summary.clone(),
        }
    }
}

/// The metadata table described by a sequence of records: identifiers map to
/// their records. When a sequence holds two records with one identifier, the
/// later one wins here; well-formed registries never hold such a sequence.
pub open spec fn table_of(docs: Seq<DocumentMetadata>) -> Map<Seq<char>, MetaView>
    decreases docs.len(),
{
    if docs.len() == 0 {
        Map::empty()
    } else {
        table_of(docs.drop_last()).insert(docs.last()@.id, docs.last()@)
    }
}

/// Whether some record in `docs` carries the identifier `x`.
pub open spec fn has_id(docs: Seq<DocumentMetadata>, x: Seq<char>) -> bool {
    exists|i: int| 0 <= i < docs.len() && (#[trigger] docs[i])@.id == x
}

/// No two records in `docs` share an identifier.
pub open spec fn distinct_ids(docs: Seq<DocumentMetadata>) -> bool {
    forall|i: int, j: int|
        0 <= i < j < docs.len() ==> (#[trigger] docs[i])@.id != (#[trigger] docs[j])@.id
}

/// The set of character sequences that the strings of `v` spell.
pub open spec fn strings_set(v: Seq<String>) -> Set<Seq<char>> {
    Set::new(|x: Seq<char>| exists|i: int| 0 <= i < v.len() && (#[trigger] v[i])@ == x)
}

/// The keys of `table_of(docs)` are exactly the identifiers of `docs`,
/// and the table is finite.
pub proof fn lemma_table_dom(docs: Seq<DocumentMetadata>)
    ensures
        table_of(docs).dom().finite(),
        forall|x: Seq<char>| #[trigger] table_of(docs).dom().contains(x) <==> has_id(docs, x),
    decreases docs.len(),
{
    if docs.len() == 0 {
    } else {
        let prefix = docs.drop_last();
        lemma_table_dom(prefix);
        assert forall|x: Seq<char>| #[trigger] table_of(docs).dom().contains(x) implies has_id(
            docs,
            x,
        ) by {
            if x == docs.last()@.id {
                assert(docs[docs.len() - 1]@.id == x);
            } else {
                let i = choose|i: int| 0 <= i < prefix.len() && (#[trigger] prefix[i])@.id == x;
                assert(docs[i]@.id == x);
            }
        }
        assert forall|x: Seq<char>| has_id(docs, x) implies table_of(docs).dom().contains(x) by {
            let i = choose|i: int| 0 <= i < docs.len() && (#[trigger] docs[i])@.id == x;
            if i < docs.len() - 1 {
                assert(prefix[i]@.id == x);
            }
        }
    }
}

/// With distinct identifiers, the table holds exactly one entry per record.
pub proof fn lemma_table_len(docs: Seq<DocumentMetadata>)
    requires
        distinct_ids(docs),
    ensures
        table_of(docs).dom().len() == docs.len(),
    decreases docs.len(),
{
    if docs.len() == 0 {
        assert(table_of(docs).dom() =~= Set::<Seq<char>>::empty());
    } else {
        let prefix = docs.drop_last();
        lemma_table_len(prefix);
        lemma_table_dom(prefix);
        assert(!has_id(prefix, docs.last()@.id));
        vstd::set::axiom_set_insert_len(table_of(prefix).dom(), docs.last()@.id);
        assert(table_of(docs).dom() =~= table_of(prefix).dom().insert(docs.last()@.id));
    }
}

/// The verified core of the synchronizer: the metadata of every document ever
/// fetched, keyed by identifier, together with the set of documents marked as
/// read. The fetched set is exactly the key set of the metadata table, and
/// only fetched documents can be marked read.
#[derive(Debug)]
pub struct DocumentRegistry {
    docs: Vec<DocumentMetadata>,
    read: Vec<String>,
}

impl DocumentRegistry {
    /// The metadata table: identifier -> record.
    pub closed spec fn table(self) -> Map<Seq<char>, MetaView> {
        table_of(self.docs@)
    }

    /// The set of identifiers ever fetched.
    pub open spec fn fetched(self) -> Set<Seq<char>> {
        self.table().dom()
    }

    /// The set of identifiers marked as read.
    pub closed spec fn read_set(self) -> Set<Seq<char>> {
        strings_set(self.read@)
    }

    /// Well-formedness: identifiers are recorded once, read identifiers are
    /// listed once, and everything read has been fetched.
    pub closed spec fn wf(self) -> bool {
        &&& distinct_ids(self.docs@)
        &&& distinct_strs(self.read@)
        &&& forall|i: int|
            0 <= i < self.read@.len() ==> self.fetched().contains((#[trigger] self.read@[i])@)
    }

    /// An empty registry: nothing fetched, nothing read.
    pub fn new() -> (r: Self)
        ensures
            r.wf(),
            r.table() == Map::<Seq<char>, MetaView>::empty(),
            r.read_set() == Set::<Seq<char>>::empty(),
    {
        let r = DocumentRegistry { docs: Vec::new(), read: Vec::new() };
        proof {
            assert(r.read_set() =~= Set::<Seq<char>>::empty());
        }
        r
    }

    /// Whether `id` has been fetched.
    pub fn contains_id(&self, id: &String) -> (b: bool)
        ensures
            b == self.fetched().contains(id@),
    {
        let mut i: usize = 0;
        while i < self.docs.len()
            invariant
                i <= self.docs.len(),
                forall|k: int| 0 <= k < i ==> (#[trigger] self.docs@[k])@.id != id@,
            decreases self.docs.len() - i,
        {
            if self.docs[i].id == *id {
                proof {
                    lemma_table_dom(self.docs@);
                    assert((self.docs@[i as int])@.id == id@);
                }
                return true;
            }
            i += 1;
        }
        proof {
            lemma_table_dom(self.docs@);
        }
        false
    }

    /// Whether `id` has been marked read.
    pub fn is_read(&self, id: &String) -> (b: bool)
        ensures
            b == self.read_set().contains(id@),
    {
        let mut i: usize = 0;
        while i < self.read.len()
            invariant
                i <= self.read.len(),
                forall|k: int| 0 <= k < i ==> (#[trigger] self.read@[k])@ != id@,
            decreases self.read.len() - i,
        {
            if self.read[i] == *id {
                return true;
            }
            i += 1;
        }
        false
    }

    /// Inserts a metadata record unless its identifier was already fetched;
    /// reports whether a new record was added. The first record of an
    /// identifier wins: a second `record` of the same identifier changes
    /// nothing, whatever its title and summary.
    pub fn record(&mut self, meta: DocumentMetadata) -> (added: bool)
        requires
            old(self).wf(),
        ensures
            final(self).wf(),
            added == !old(self).fetched().contains(meta@.id),
            final(self).read_set() == old(self).read_set(),
            added ==> final(self).table() == old(self).table().insert(meta@.id, meta@),
            !added ==> *final(self) == *old(self),
    {
        if self.contains_id(&meta.id) {
            false
        } else {
            proof {
                lemma_table_dom(self.docs@);
                assert(self.docs@.push(meta).drop_last() =~= self.docs@);
            }
            self.docs.push(meta);
            true
        }
    }

    /// Marks a fetched document as read. A document never fetched cannot be
    /// read: the call fails with `UnknownDocument` and changes nothing.
    pub fn mark_read(&mut self, id: &String) -> (r: Result<(), SyncError>)
        requires
            old(self).wf(),
        ensures
            final(self).wf(),
            final(self).table() == old(self).table(),
            old(self).fetched().contains(id@) ==> r == Ok::<(), SyncError>(())
                && final(self).read_set() == old(self).read_set().insert(id@),
            !old(self).fetched().contains(id@) ==> r == Err::<(), SyncError>(
                SyncError::UnknownDocument,
            ) && *final(self) == *old(self),
    {
        if !self.contains_id(id) {
            Err(SyncError::UnknownDocument)
        } else {
            if !self.is_read(id) {
                let ghost old_read = self.read@;
                self.read.push(id.clone());
                proof {
                    assert forall|x: Seq<char>|
                        strings_set(self.read@).contains(x) implies strings_set(
                        old_read,
                    ).insert(id@).contains(x) by {
                        let i = choose|i: int|
                            0 <= i < self.read@.len() && (#[trigger] self.read@[i])@ == x;
                        if i < old_read.len() {
                            assert(old_read[i]@ == x);
                        }
                    }
                    assert forall|x: Seq<char>|
                        strings_set(old_read).insert(id@).contains(x) implies strings_set(
                        self.read@,
                    ).contains(x) by {
                        if x == id@ {
                            assert(self.read@[self.read@.len() - 1]@ == x);
                        } else {
                            let i = choose|i: int|
                                0 <= i < old_read.len() && (#[trigger] old_read[i])@ == x;
                            assert(self.read@[i]@ == x);
                        }
                    }
                    assert(strings_set(self.read@) =~= strings_set(old_read).insert(id@));
                }
            } else {
                proof {
                    assert(self.read_set().insert(id@) =~= self.read_set());
                }
            }
            Ok(())
        }
    }

    /// How many documents the registry holds.
    pub fn document_count(&self) -> (n: usize)
        requires
            self.wf(),
        ensures
            n == self.table().dom().len(),
    {
        proof {
            lemma_table_len(self.docs@);
        }
        self.docs.len()
    }
}

/// No two of these strings spell one character sequence.
pub open spec fn distinct_strs(v: Seq<String>) -> bool {
    forall|i: int, j: int| 0 <= i < j < v.len() ==> (#[trigger] v[i])@ != (#[trigger] v[j])@
}

/// Whether some string in `xs` spells `x`.
pub open spec fn list_has(xs: Seq<String>, x: Seq<char>) -> bool {
    exists|i: int| 0 <= i < xs.len() && (#[trigger] xs[i])@ == x
}

/// No two of these character sequences are alike.
pub open spec fn distinct_seqs(xs: Seq<Seq<char>>) -> bool {
    forall|i: int, j: int| 0 <= i < j < xs.len() ==> xs[i] != xs[j]
}

/// Whether some record view in `ms` carries the identifier `x`.
pub open spec fn view_has_id(ms: Seq<MetaView>, x: Seq<char>) -> bool {
    exists|k: int| 0 <= k < ms.len() && (#[trigger] ms[k]).id == x
}

/// Whether some sequence in `xs` is `x`.
pub open spec fn seq_has(xs: Seq<Seq<char>>, x: Seq<char>) -> bool {
    exists|i: int| 0 <= i < xs.len() && xs[i] == x
}

/// The set that a sequence of character sequences spells.
pub open spec fn seqs_set(xs: Seq<Seq<char>>) -> Set<Seq<char>> {
    Set::new(|x: Seq<char>| seq_has(xs, x))
}

/// The identifiers of a sequence of record views, in order.
pub open spec fn ids_of(ms: Seq<MetaView>) -> Seq<Seq<char>> {
    ms.map_values(|m: MetaView| m.id)
}

/// The metadata table described by a sequence of record views.
pub open spec fn table_of_views(ms: Seq<MetaView>) -> Map<Seq<char>, MetaView>
    decreases ms.len(),
{
    if ms.len() == 0 {
        Map::empty()
    } else {
        table_of_views(ms.drop_last()).insert(ms.last().id, ms.last())
    }
}

/// The table of a record list is the table of its views.
pub proof fn lemma_table_views(docs: Seq<DocumentMetadata>)
    ensures
        table_of(docs) == table_of_views(crate::codec::meta_views(docs)),
    decreases docs.len(),
{
    let ms = crate::codec::meta_views(docs);
    if docs.len() == 0 {
        assert(ms =~= Seq::<MetaView>::empty());
    } else {
        lemma_table_views(docs.drop_last());
        assert(ms.drop_last() =~= crate::codec::meta_views(docs.drop_last()));
        assert(ms.last() == docs.last()@);
    }
}

/// Under distinct identifiers, each record stands in the table unchanged.
pub proof fn lemma_table_at(docs: Seq<DocumentMetadata>, j: int)
    requires
        distinct_ids(docs),
        0 <= j < docs.len(),
    ensures
        table_of(docs).dom().contains(docs[j]@.id),
        table_of(docs)[docs[j]@.id] == docs[j]@,
    decreases docs.len(),
{
    lemma_table_dom(docs);
    if j == docs.len() - 1 {
    } else {
        lemma_table_at(docs.drop_last(), j);
        assert(docs.drop_last()[j] == docs[j]);
        assert(docs[docs.len() - 1]@.id != docs[j]@.id);
    }
}

/// The metadata table of a registry is a finite map.
pub proof fn lemma_registry_table_finite(r: DocumentRegistry)
    ensures
        r.table().dom().finite(),
{
    lemma_table_dom(r.docs@);
}

/// Whether three decoded snapshots describe one consistent registry state:
/// record identifiers unique, the fetched list spelling exactly the record
/// key set, each read identifier unique and naming a record.
pub open spec fn consistent_snapshots(
    f: Seq<Seq<char>>,
    ms: Seq<MetaView>,
    r: Seq<Seq<char>>,
) -> bool {
    &&& distinct_seqs(ids_of(ms))
    &&& distinct_seqs(r)
    &&& (forall|i: int| 0 <= i < f.len() ==> view_has_id(ms, #[trigger] f[i]))
    &&& (forall|j: int| 0 <= j < ms.len() ==> seq_has(f, (#[trigger] ms[j]).id))
    &&& (forall|i: int| 0 <= i < r.len() ==> view_has_id(ms, #[trigger] r[i]))
}

/// The view of an optional snapshot text.
pub open spec fn opt_view(o: Option<&str>) -> Option<Seq<char>> {
    match o {
        None => None,
        Some(t) => Some(t@),
    }
}

/// What loading three optional snapshot texts yields: a missing text stands
/// for an empty structure; a text that does not parse, or a trio that is not
/// consistent, is corrupt and yields nothing.
pub open spec fn load_model(f: Option<Seq<char>>, i: Option<Seq<char>>, r: Option<Seq<char>>) -> Option<
    (Seq<MetaView>, Seq<Seq<char>>),
> {
    let pf = match f {
        None => Some(Seq::<Seq<char>>::empty()),
        Some(t) => crate::codec::parse_ids(t),
    };
    let pi = match i {
        None => Some(Seq::<MetaView>::empty()),
        Some(t) => crate::codec::parse_info(t),
    };
    let pr = match r {
        None => Some(Seq::<Seq<char>>::empty()),
        Some(t) => crate::codec::parse_ids(t),
    };
    if pf is Some && pi is Some && pr is Some && consistent_snapshots(
        pf.unwrap(),
        pi.unwrap(),
        pr.unwrap(),
    ) {
        Some((pi.unwrap(), pr.unwrap()))
    } else {
        None
    }
}

/// Consistency of decoded snapshots, read off the executable values.
proof fn lemma_consistency_bridge(f: Seq<String>, docs: Seq<DocumentMetadata>, r: Seq<String>)
    ensures
        consistent_snapshots(
            crate::codec::str_views(f),
            crate::codec::meta_views(docs),
            crate::codec::str_views(r),
        ) <==> ({
            &&& distinct_ids(docs)
            &&& distinct_strs(r)
            &&& (forall|i: int| 0 <= i < f.len() ==> has_id(docs, (#[trigger] f[i])@))
            &&& (forall|j: int| 0 <= j < docs.len() ==> list_has(f, (#[trigger] docs[j])@.id))
            &&& (forall|i: int| 0 <= i < r.len() ==> has_id(docs, (#[trigger] r[i])@))
        }),
{
    let fv = crate::codec::str_views(f);
    let ms = crate::codec::meta_views(docs);
    let rv = crate::codec::str_views(r);
    assert forall|x: Seq<char>| view_has_id(ms, x) == has_id(docs, x) by {
        if view_has_id(ms, x) {
            let k = choose|k: int| 0 <= k < ms.len() && (#[trigger] ms[k]).id == x;
            assert(docs[k]@.id == x);
        }
        if has_id(docs, x) {
            let k = choose|k: int| 0 <= k < docs.len() && (#[trigger] docs[k])@.id == x;
            assert(ms[k].id == x);
        }
    }
    assert forall|x: Seq<char>| seq_has(fv, x) == list_has(f, x) by {
        if seq_has(fv, x) {
            let k = choose|k: int| 0 <= k < fv.len() && fv[k] == x;
            assert(f[k]@ == x);
        }
        if list_has(f, x) {
            let k = choose|k: int| 0 <= k < f.len() && (#[trigger] f[k])@ == x;
            assert(fv[k] == x);
        }
    }
    assert(distinct_seqs(ids_of(ms)) == distinct_ids(docs)) by {
        if distinct_ids(docs) {
            assert forall|i: int, j: int|
                0 <= i < j < ids_of(ms).len() implies ids_of(ms)[i] != ids_of(ms)[j] by {
                assert(ids_of(ms)[i] == docs[i]@.id);
                assert(ids_of(ms)[j] == docs[j]@.id);
            }
        }
        if distinct_seqs(ids_of(ms)) {
            assert forall|i: int, j: int|
                0 <= i < j < docs.len() implies (#[trigger] docs[i])@.id != (
                #[trigger] docs[j])@.id by {
                assert(ids_of(ms)[i] == docs[i]@.id);
                assert(ids_of(ms)[j] == docs[j]@.id);
            }
        }
    }
    assert(distinct_seqs(rv) == distinct_strs(r)) by {
        if distinct_strs(r) {
            assert forall|i: int, j: int| 0 <= i < j < rv.len() implies rv[i] != rv[j] by {
                assert(rv[i] == r[i]@);
                assert(rv[j] == r[j]@);
            }
        }
        if distinct_seqs(rv) {
            assert forall|i: int, j: int|
                0 <= i < j < r.len() implies (#[trigger] r[i])@ != (#[trigger] r[j])@ by {
                assert(rv[i] == r[i]@);
                assert(rv[j] == r[j]@);
            }
        }
    }
    assert((forall|i: int| 0 <= i < fv.len() ==> view_has_id(ms, #[trigger] fv[i])) == (forall|
        i: int,
    | 0 <= i < f.len() ==> has_id(docs, (#[trigger] f[i])@))) by {
        if forall|i: int| 0 <= i < f.len() ==> has_id(docs, (#[trigger] f[i])@) {
            assert forall|i: int| 0 <= i < fv.len() implies view_has_id(ms, #[trigger] fv[i]) by {
                assert(fv[i] == f[i]@);
            }
        }
        if forall|i: int| 0 <= i < fv.len() ==> view_has_id(ms, #[trigger] fv[i]) {
            assert forall|i: int| 0 <= i < f.len() implies has_id(docs, (#[trigger] f[i])@) by {
                assert(fv[i] == f[i]@);
            }
        }
    }
    assert((forall|j: int| 0 <= j < ms.len() ==> seq_has(fv, (#[trigger] ms[j]).id)) == (forall|
        j: int,
    | 0 <= j < docs.len() ==> list_has(f, (#[trigger] docs[j])@.id))) by {
        if forall|j: int| 0 <= j < docs.len() ==> list_has(f, (#[trigger] docs[j])@.id) {
            assert forall|j: int| 0 <= j < ms.len() implies seq_has(fv, (#[trigger] ms[j]).id) by {
                assert(ms[j] == docs[j]@);
            }
        }
        if forall|j: int| 0 <= j < ms.len() ==> seq_has(fv, (#[trigger] ms[j]).id) {
            assert forall|j: int|
                0 <= j < docs.len() implies list_has(f, (#[trigger] docs[j])@.id) by {
                assert(ms[j] == docs[j]@);
            }
        }
    }
    assert((forall|i: int| 0 <= i < rv.len() ==> view_has_id(ms, #[trigger] rv[i])) == (forall|
        i: int,
    | 0 <= i < r.len() ==> has_id(docs, (#[trigger] r[i])@))) by {
        if forall|i: int| 0 <= i < r.len() ==> has_id(docs, (#[trigger] r[i])@) {
            assert forall|i: int| 0 <= i < rv.len() implies view_has_id(ms, #[trigger] rv[i]) by {
                assert(rv[i] == r[i]@);
            }
        }
        if forall|i: int| 0 <= i < rv.len() ==> view_has_id(ms, #[trigger] rv[i]) {
            assert forall|i: int| 0 <= i < r.len() implies has_id(docs, (#[trigger] r[i])@) by {
                assert(rv[i] == r[i]@);
            }
        }
    }
}

/// Whether some record carries the identifier that `x` spells.
fn docs_have_id(docs: &Vec<DocumentMetadata>, x: &String) -> (b: bool)
    ensures
        b == has_id(docs@, x@),
{
    let mut i: usize = 0;
    while i < docs.len()
        invariant
            i <= docs.len(),
            forall|k: int| 0 <= k < i ==> (#[trigger] docs@[k])@.id != x@,
        decreases docs.len() - i,
    {
        if docs[i].id == *x {
            proof {
                assert((docs@[i as int])@.id == x@);
            }
            return true;
        }
        i += 1;
    }
    false
}

/// Whether some string of `xs` spells what `x` spells.
fn list_contains(xs: &Vec<String>, x: &String) -> (b: bool)
    ensures
        b == list_has(xs@, x@),
{
    let mut i: usize = 0;
    while i < xs.len()
        invariant
            i <= xs.len(),
            forall|k: int| 0 <= k < i ==> (#[trigger] xs@[k])@ != x@,
        decreases xs.len() - i,
    {
        if xs[i] == *x {
            proof {
                assert((xs@[i as int])@ == x@);
            }
            return true;
        }
        i += 1;
    }
    false
}

/// Whether the records carry pairwise distinct identifiers.
fn ids_distinct_check(docs: &Vec<DocumentMetadata>) -> (b: bool)
    ensures
        b == distinct_ids(docs@),
{
    let mut i: usize = 0;
    while i < docs.len()
        invariant
            i <= docs.len(),
            forall|a: int, b2: int|
                0 <= a < b2 < docs@.len() && a < i ==> (#[trigger] docs@[a])@.id != (
                #[trigger] docs@[b2])@.id,
        decreases docs.len() - i,
    {
        let mut j: usize = i + 1;
        while j < docs.len()
            invariant
                i < j <= docs.len(),
                i < docs.len(),
                forall|a: int, b2: int|
                    0 <= a < b2 < docs@.len() && a < i ==> (#[trigger] docs@[a])@.id != (
                    #[trigger] docs@[b2])@.id,
                forall|b2: int|
                    i < b2 < j ==> (#[trigger] docs@[b2])@.id != docs@[i as int]@.id,
            decreases docs.len() - j,
        {
            if docs[i].id == docs[j].id {
                proof {
                    assert(docs@[i as int]@.id == docs@[j as int]@.id);
                }
                return false;
            }
            j += 1;
        }
        i += 1;
    }
    true
}

/// Whether the strings spell pairwise distinct identifiers.
fn strings_distinct_check(v: &Vec<String>) -> (b: bool)
    ensures
        b == distinct_strs(v@),
{
    let mut i: usize = 0;
    while i < v.len()
        invariant
            i <= v.len(),
            forall|a: int, b2: int|
                0 <= a < b2 < v@.len() && a < i ==> (#[trigger] v@[a])@ != (#[trigger] v@[b2])@,
        decreases v.len() - i,
    {
        let mut j: usize = i + 1;
        while j < v.len()
            invariant
                i < j <= v.len(),
                i < v.len(),
                forall|a: int, b2: int|
                    0 <= a < b2 < v@.len() && a < i ==> (#[trigger] v@[a])@ != (
                    #[trigger] v@[b2])@,
                forall|b2: int| i < b2 < j ==> (#[trigger] v@[b2])@ != v@[i as int]@,
            decreases v.len() - j,
        {
            if v[i] == v[j] {
                proof {
                    assert(v@[i as int]@ == v@[j as int]@);
                }
                return false;
            }
            j += 1;
        }
        i += 1;
    }
    true
}

/// Whether every string of `xs` names a record.
fn all_name_records(xs: &Vec<String>, docs: &Vec<DocumentMetadata>) -> (b: bool)
    ensures
        b == (forall|i: int| 0 <= i < xs@.len() ==> has_id(docs@, (#[trigger] xs@[i])@)),
{
    let mut i: usize = 0;
    while i < xs.len()
        invariant
            i <= xs.len(),
            forall|k: int| 0 <= k < i ==> has_id(docs@, (#[trigger] xs@[k])@),
        decreases xs.len() - i,
    {
        if !docs_have_id(docs, &xs[i]) {
            return false;
        }
        i += 1;
    }
    true
}

/// Whether every record's identifier stands in the list.
fn all_records_listed(docs: &Vec<DocumentMetadata>, xs: &Vec<String>) -> (b: bool)
    ensures
        b == (forall|j: int| 0 <= j < docs@.len() ==> list_has(xs@, (#[trigger] docs@[j])@.id)),
{
    let mut j: usize = 0;
    while j < docs.len()
        invariant
            j <= docs.len(),
            forall|k: int| 0 <= k < j ==> list_has(xs@, (#[trigger] docs@[k])@.id),
        decreases docs.len() - j,
    {
        if !list_contains(xs, &docs[j].id) {
            return false;
        }
        j += 1;
    }
    true
}

impl DocumentRegistry {
    /// The record views, in insertion order.
    pub closed spec fn doc_views(self) -> Seq<MetaView> {
        crate::codec::meta_views(self.docs@)
    }

    /// The read identifiers, in insertion order.
    pub closed spec fn read_ids(self) -> Seq<Seq<char>> {
        crate::codec::str_views(self.read@)
    }

    /// The record a fetched identifier maps to.
    pub fn get(&self, id: &String) -> (r: Option<&DocumentMetadata>)
        requires
            self.wf(),
        ensures
            match r {
                Some(d) => self.fetched().contains(id@) && d@ == self.table()[id@],
                None => !self.fetched().contains(id@),
            },
    {
        let mut i: usize = 0;
        while i < self.docs.len()
            invariant
                i <= self.docs.len(),
                self.wf(),
                forall|k: int| 0 <= k < i ==> (#[trigger] self.docs@[k])@.id != id@,
            decreases self.docs.len() - i,
        {
            if self.docs[i].id == *id {
                proof {
                    lemma_table_at(self.docs@, i as int);
                }
                return Some(&self.docs[i]);
            }
            i += 1;
        }
        proof {
            lemma_table_dom(self.docs@);
        }
        None
    }

    /// Serializes the three snapshots: the fetched identifiers, the metadata
    /// table, and the read identifiers, each in insertion order, so one
    /// process writes reproducible snapshot texts.
    pub fn save_snapshots(&self) -> (r: (String, String, String))
        requires
            self.wf(),
        ensures
            r.0@ == crate::codec::ids_json(ids_of(self.doc_views())),
            r.1@ == crate::codec::info_json(self.doc_views()),
            r.2@ == crate::codec::ids_json(self.read_ids()),
    {
        let mut ids: Vec<String> = Vec::new();
        let mut i: usize = 0;
        while i < self.docs.len()
            invariant
                i <= self.docs.len(),
                ids@.len() == i,
                forall|k: int| 0 <= k < i ==> (#[trigger] ids@[k])@ == self.docs@[k]@.id,
            decreases self.docs.len() - i,
        {
            ids.push(self.docs[i].id.clone());
            i += 1;
        }
        proof {
            assert(crate::codec::str_views(ids@) =~= ids_of(self.doc_views()));
        }
        let f = crate::codec::encode_id_list(&ids);
        let m = crate::codec::encode_info(&self.docs);
        let rd = crate::codec::encode_id_list(&self.read);
        (f, m, rd)
    }

    /// Hydrates a registry from the three snapshot texts, each `None` where
    /// its file is missing: a missing snapshot is an empty structure, not an
    /// error. A text that does not parse, and a trio of snapshots that does
    /// not describe one consistent state, fail with `CorruptState`.
    pub fn load_snapshots(fetched: Option<&str>, info: Option<&str>, read: Option<&str>) -> (r:
        Result<DocumentRegistry, SyncError>)
        ensures
            match r {
                Ok(reg) => {
                    &&& reg.wf()
                    &&& load_model(opt_view(fetched), opt_view(info), opt_view(read)) == Some(
                        (reg.doc_views(), reg.read_ids()),
                    )
                    &&& reg.table() == table_of_views(reg.doc_views())
                    &&& reg.read_set() == seqs_set(reg.read_ids())
                },
                Err(e) => e == SyncError::CorruptState && load_model(
                    opt_view(fetched),
                    opt_view(info),
                    opt_view(read),
                ) is None,
            },
    {
        let f_ids: Vec<String> = match fetched {
            None => Vec::new(),
            Some(t) => match crate::codec::decode_id_list(t) {
                Ok(v) => v,
                Err(e) => {
                    return Err(e);
                },
            },
        };
        let docs: Vec<DocumentMetadata> = match info {
            None => Vec::new(),
            Some(t) => match crate::codec::decode_info(t) {
                Ok(v) => v,
                Err(e) => {
                    return Err(e);
                },
            },
        };
        let read_list: Vec<String> = match read {
            None => Vec::new(),
            Some(t) => match crate::codec::decode_id_list(t) {
                Ok(v) => v,
                Err(e) => {
                    return Err(e);
                },
            },
        };
        proof {
            if fetched is None {
                assert(crate::codec::str_views(f_ids@) =~= Seq::<Seq<char>>::empty());
            }
            if info is None {
                assert(crate::codec::meta_views(docs@) =~= Seq::<MetaView>::empty());
            }
            if read is None {
                assert(crate::codec::str_views(read_list@) =~= Seq::<Seq<char>>::empty());
            }
            lemma_consistency_bridge(f_ids@, docs@, read_list@);
        }
        if !ids_distinct_check(&docs) {
            return Err(SyncError::CorruptState);
        }
        if !strings_distinct_check(&read_list) {
            return Err(SyncError::CorruptState);
        }
        if !all_name_records(&f_ids, &docs) {
            return Err(SyncError::CorruptState);
        }
        if !all_records_listed(&docs, &f_ids) {
            return Err(SyncError::CorruptState);
        }
        if !all_name_records(&read_list, &docs) {
            return Err(SyncError::CorruptState);
        }
        let reg = DocumentRegistry { docs, read: read_list };
        proof {
            lemma_table_dom(reg.docs@);
            lemma_table_views(reg.docs@);
            assert forall|x: Seq<char>|
                reg.read_set().contains(x) == seqs_set(reg.read_ids()).contains(x) by {
                if reg.read_set().contains(x) {
                    let k = choose|k: int|
                        0 <= k < reg.read@.len() && (#[trigger] reg.read@[k])@ == x;
                    assert(reg.read_ids()[k] == x);
                }
                if seqs_set(reg.read_ids()).contains(x) {
                    let k = choose|k: int|
                        0 <= k < reg.read_ids().len() && (#[trigger] reg.read_ids()[k]) == x;
                    assert(reg.read@[k]@ == x);
                }
            }
            assert(reg.read_set() =~= seqs_set(reg.read_ids()));
        }
        Ok(reg)
    }
}

/// Law: saving and loading round-trips. The three snapshot texts that
/// `save_snapshots` writes load back as one consistent state that reproduces
/// the metadata table and the read set exactly.
pub proof fn lemma_snapshot_round_trip(reg: DocumentRegistry)
    requires
        reg.wf(),
    ensures
        load_model(
            Some(crate::codec::ids_json(ids_of(reg.doc_views()))),
            Some(crate::codec::info_json(reg.doc_views())),
            Some(crate::codec::ids_json(reg.read_ids())),
        ) == Some((reg.doc_views(), reg.read_ids())),
        table_of_views(reg.doc_views()) == reg.table(),
        seqs_set(reg.read_ids()) == reg.read_set(),
{
    crate::codec::lemma_ids_round_trip(ids_of(reg.doc_views()));
    crate::codec::lemma_info_round_trip(reg.doc_views());
    crate::codec::lemma_ids_round_trip(reg.read_ids());
    lemma_table_views(reg.docs@);
    lemma_table_dom(reg.docs@);
    lemma_consistency_bridge(Seq::<String>::empty(), reg.docs@, reg.read@);
    // Consistency of the saved trio, clause by clause.
    let ms = reg.doc_views();
    let fv = ids_of(ms);
    let rv = reg.read_ids();
    assert(distinct_seqs(fv)) by {
        assert forall|i: int, j: int| 0 <= i < j < fv.len() implies fv[i] != fv[j] by {
            assert(fv[i] == reg.docs@[i]@.id);
            assert(fv[j] == reg.docs@[j]@.id);
        }
    }
    assert(distinct_seqs(rv)) by {
        assert forall|i: int, j: int| 0 <= i < j < rv.len() implies rv[i] != rv[j] by {
            assert(rv[i] == reg.read@[i]@);
            assert(rv[j] == reg.read@[j]@);
        }
    }
    assert forall|i: int| 0 <= i < fv.len() implies view_has_id(ms, #[trigger] fv[i]) by {
        assert(ms[i].id == fv[i]);
    }
    assert forall|j: int| 0 <= j < ms.len() implies seq_has(fv, (#[trigger] ms[j]).id) by {
        assert(fv[j] == ms[j].id);
    }
    assert forall|i: int| 0 <= i < rv.len() implies view_has_id(ms, #[trigger] rv[i]) by {
        assert(reg.read@[i]@ == rv[i]);
        assert(reg.fetched().contains(rv[i]));
        assert(has_id(reg.docs@, rv[i]));
        let k = choose|k: int| 0 <= k < reg.docs@.len() && (#[trigger] reg.docs@[k])@.id == rv[i];
        assert(ms[k].id == rv[i]);
    }
    assert(consistent_snapshots(fv, ms, rv));
    assert forall|x: Seq<char>|
        reg.read_set().contains(x) == seqs_set(reg.read_ids()).contains(x) by {
        if reg.read_set().contains(x) {
            let k = choose|k: int| 0 <= k < reg.read@.len() && (#[trigger] reg.read@[k])@ == x;
            assert(reg.read_ids()[k] == x);
        }
        if seqs_set(reg.read_ids()).contains(x) {
            let k = choose|k: int|
                0 <= k < reg.read_ids().len() && (#[trigger] reg.read_ids()[k]) == x;
            assert(reg.read@[k]@ == x);
        }
    }
    assert(seqs_set(reg.read_ids()) =~= reg.read_set());
}

/// Law: missing snapshot files are tolerated. Loading three absent snapshots
/// yields the empty state, not an error.
pub proof fn lemma_missing_files_empty()
    ensures
        load_model(None, None, None) == Some(
            (Seq::<MetaView>::empty(), Seq::<Seq<char>>::empty()),
        ),
{
    assert(consistent_snapshots(
        Seq::<Seq<char>>::empty(),
        Seq::<MetaView>::empty(),
        Seq::<Seq<char>>::empty(),
    ));
}

/// Law: in every well-formed registry the metadata table's keys are exactly
/// the fetched set, and the read set is contained in the fetched set.
pub proof fn lemma_registry_invariant(r: DocumentRegistry)
    requires
        r.wf(),
    ensures
        r.table().dom() == r.fetched(),
        r.read_set().subset_of(r.fetched()),
{
    assert forall|x: Seq<char>| r.read_set().contains(x) implies r.fetched().contains(x) by {
        let i = choose|i: int| 0 <= i < r.read@.len() && (#[trigger] r.read@[i])@ == x;
    }
}

} // verus!
