use vstd::prelude::*;

verus! {

use crate::registry::{DocumentMetadata, DocumentRegistry, MetaView};

/// The entries that the feed parser draws from a feed document, each as a
/// triple (identifier, title, summary); `None` when the text is not a feed
/// document.
pub uninterp spec fn feed_entries_of(body: Seq<char>) -> Option<
    Seq<(Seq<char>, Seq<char>, Seq<char>)>,
>;

/// The triples that a sequence of metadata records spells.
pub open spec fn entry_triples(entries: Seq<DocumentMetadata>) -> Seq<
    (Seq<char>, Seq<char>, Seq<char>),
> {
    entries.map_values(|d: DocumentMetadata| (d@.id, d@.title, d@.summary))
}

/// Relies on atom_syndication's `Feed` parser (its `FromStr`): the entries
/// read from a feed document are a function of the document text alone. Each
/// entry yields its identifier, title and summary; an entry without a summary
/// yields an empty one.
#[verifier::external_body]
fn parse_feed(body: &str) -> (r: Option<Vec<DocumentMetadata>>)
    ensures
        match r {
            Some(entries) => feed_entries_of(body@) == Some(entry_triples(entries@)),
            None => feed_entries_of(body@) is None,
        },
{
    match body.parse::<atom_syndication::Feed>() {
        Ok(feed) => Some(
            feed.entries().iter().map(
                |e| DocumentMetadata {
                    id: e.id().to_string(),
                    title: e.title().as_str().to_string(),
                    summary: e.summary().map_or(String::new(), |t| t.as_str().to_string()),
                },
            ).collect(),
        ),
        Err(_) => None,
    }
}

/// One merge step: an entry is added only if its identifier is new; an
/// identifier already present keeps its record (first write wins).
pub open spec fn table_step(
    t: Map<Seq<char>, MetaView>,
    e: (Seq<char>, Seq<char>, Seq<char>),
) -> Map<Seq<char>, MetaView> {
    if t.dom().contains(e.0) {
        t
    } else {
        t.insert(e.0, MetaView { id: e.0, title: e.1, summary: e.2 })
    }
}

/// Merging a sequence of entries into a table, left to right.
pub open spec fn merge_table(
    t: Map<Seq<char>, MetaView>,
    es: Seq<(Seq<char>, Seq<char>, Seq<char>)>,
) -> Map<Seq<char>, MetaView>
    decreases es.len(),
{
    if es.len() == 0 {
        t
    } else {
        merge_table(table_step(t, es[0]), es.drop_first())
    }
}

/// Merging one more entry at the end is one more step on the merged table.
pub proof fn lemma_merge_push(
    t: Map<Seq<char>, MetaView>,
    es: Seq<(Seq<char>, Seq<char>, Seq<char>)>,
    e: (Seq<char>, Seq<char>, Seq<char>),
)
    ensures
        merge_table(t, es.push(e)) == table_step(merge_table(t, es), e),
    decreases es.len(),
{
    if es.len() == 0 {
        assert(es.push(e)[0] == e);
        assert(es.push(e).drop_first() =~= Seq::<(Seq<char>, Seq<char>, Seq<char>)>::empty());
        assert(merge_table(table_step(t, e), Seq::<(Seq<char>, Seq<char>, Seq<char>)>::empty())
            == table_step(t, e));
        assert(merge_table(t, es.push(e)) == merge_table(
            table_step(t, es.push(e)[0]),
            es.push(e).drop_first(),
        ));
    } else {
        assert(es.push(e)[0] == es[0]);
        assert(es.push(e).drop_first() =~= es.drop_first().push(e));
        lemma_merge_push(table_step(t, es[0]), es.drop_first(), e);
        assert(merge_table(t, es.push(e)) == merge_table(
            table_step(t, es[0]),
            es.drop_first().push(e),
        ));
        assert(merge_table(t, es) == merge_table(table_step(t, es[0]), es.drop_first()));
    }
}

/// Merges parsed entries into the registry and returns how many documents
/// were new. Duplicate identifiers inside `entries`, and identifiers fetched
/// in an earlier run, collapse: the first record of an identifier wins.
pub fn merge_entries(reg: &mut DocumentRegistry, entries: &Vec<DocumentMetadata>) -> (new_count:
    usize)
    requires
        old(reg).wf(),
    ensures
        final(reg).wf(),
        final(reg).read_set() == old(reg).read_set(),
        final(reg).table() == merge_table(old(reg).table(), entry_triples(entries@)),
        new_count == final(reg).table().dom().len() - old(reg).table().dom().len(),
{
    let ghost t0 = reg.table();
    let ghost triples = entry_triples(entries@);
    let mut i: usize = 0;
    let mut new_count: usize = 0;
    while i < entries.len()
        invariant
            i <= entries.len(),
            reg.wf(),
            reg.read_set() == old(reg).read_set(),
            t0 == old(reg).table(),
            triples == entry_triples(entries@),
            reg.table() == merge_table(t0, triples.take(i as int)),
            new_count == reg.table().dom().len() - t0.dom().len(),
            new_count <= i,
        decreases entries.len() - i,
    {
        let ghost t_pre = reg.table();
        proof {
            crate::registry::lemma_registry_table_finite(*reg);
        }
        let m = entries[i].clone();
        let added = reg.record(m);
        proof {
            assert(triples[i as int] == (entries@[i as int]@.id, entries@[i as int]@.title,
                entries@[i as int]@.summary));
            assert(triples.take(i as int + 1) =~= triples.take(i as int).push(triples[i as int]));
            lemma_merge_push(t0, triples.take(i as int), triples[i as int]);
            if added {
                assert(reg.table() =~= table_step(t_pre, triples[i as int]));
                vstd::set::axiom_set_insert_len(t_pre.dom(), triples[i as int].0);
                assert(reg.table().dom() =~= t_pre.dom().insert(triples[i as int].0));
            } else {
                assert(reg.table() == table_step(t_pre, triples[i as int]));
            }
        }
        if added {
            new_count += 1;
        }
        i += 1;
    }
    proof {
        assert(triples.take(entries@.len() as int) =~= triples);
    }
    new_count
}

/// The outcome of one topic within a cycle.
#[derive(Debug, Clone, Copy, PartialEq, Eq, Structural)]
pub enum TopicOutcome {
    /// The feed was fetched and parsed; this many of its entries were new.
    Merged(usize),
    /// The fetch failed; the topic was skipped, nothing was merged.
    TransportFailed,
    /// The response was not a feed document; the topic was skipped.
    ParseFailed,
}

/// The body that a fetch handed back for one topic, as a character sequence;
/// `None` when the transport failed.
pub open spec fn body_view(response: Option<String>) -> Option<Seq<char>> {
    match response {
        Some(s) => Some(s@),
        None => None,
    }
}

/// What one topic's response does to a metadata table: a failed fetch or an
/// unparsable document changes nothing; a parsed feed merges its entries.
pub open spec fn topic_step(t: Map<Seq<char>, MetaView>, response: Option<Seq<char>>) -> Map<
    Seq<char>,
    MetaView,
> {
    match response {
        None => t,
        Some(body) => match feed_entries_of(body) {
            None => t,
            Some(es) => merge_table(t, es),
        },
    }
}

/// Runs one topic of the pipeline: parses the response body, merges the
/// entries, and classifies the outcome. A per-topic failure leaves the
/// registry exactly as it was.
pub fn process_topic(reg: &mut DocumentRegistry, response: &Option<String>) -> (outcome:
    TopicOutcome)
    requires
        old(reg).wf(),
    ensures
        final(reg).wf(),
        final(reg).read_set() == old(reg).read_set(),
        final(reg).table() == topic_step(old(reg).table(), body_view(*response)),
        outcome == TopicOutcome::TransportFailed <==> *response is None,
        outcome == TopicOutcome::ParseFailed <==> (*response matches Some(b) && feed_entries_of(
            b@,
        ) is None),
        outcome matches TopicOutcome::Merged(n) ==> n == final(reg).table().dom().len() - old(
            reg,
        ).table().dom().len(),
{
    match response {
        None => TopicOutcome::TransportFailed,
        Some(body) => match parse_feed(body.as_str()) {
            None => TopicOutcome::ParseFailed,
            Some(entries) => TopicOutcome::Merged(merge_entries(reg, &entries)),
        },
    }
}

/// Merging never drops a key: whatever the table holds stays in it.
pub proof fn lemma_merge_mono(
    t: Map<Seq<char>, MetaView>,
    es: Seq<(Seq<char>, Seq<char>, Seq<char>)>,
    x: Seq<char>,
)
    requires
        t.dom().contains(x),
    ensures
        merge_table(t, es).dom().contains(x),
    decreases es.len(),
{
    if es.len() == 0 {
    } else {
        lemma_merge_mono(table_step(t, es[0]), es.drop_first(), x);
    }
}

/// After a merge, the table holds every merged entry's identifier.
pub proof fn lemma_merge_covers(
    t: Map<Seq<char>, MetaView>,
    es: Seq<(Seq<char>, Seq<char>, Seq<char>)>,
    j: int,
)
    requires
        0 <= j < es.len(),
    ensures
        merge_table(t, es).dom().contains(es[j].0),
    decreases es.len(),
{
    if j == 0 {
        lemma_merge_mono(table_step(t, es[0]), es.drop_first(), es[0].0);
    } else {
        lemma_merge_covers(table_step(t, es[0]), es.drop_first(), j - 1);
    }
}

/// Merging entries whose identifiers are all present already changes nothing.
pub proof fn lemma_merge_noop(
    t: Map<Seq<char>, MetaView>,
    es: Seq<(Seq<char>, Seq<char>, Seq<char>)>,
)
    requires
        forall|j: int| 0 <= j < es.len() ==> t.dom().contains((#[trigger] es[j]).0),
    ensures
        merge_table(t, es) == t,
    decreases es.len(),
{
    if es.len() == 0 {
    } else {
        assert(t.dom().contains(es[0].0));
        assert forall|j: int| 0 <= j < es.drop_first().len() implies t.dom().contains(
            (#[trigger] es.drop_first()[j]).0,
        ) by {
            assert(es.drop_first()[j] == es[j + 1]);
        }
        lemma_merge_noop(t, es.drop_first());
    }
}

/// Law: merging never overwrites: an identifier already in the table keeps
/// its record, whatever the merged entries carry for it.
pub proof fn lemma_first_write_wins(
    t: Map<Seq<char>, MetaView>,
    es: Seq<(Seq<char>, Seq<char>, Seq<char>)>,
    x: Seq<char>,
)
    requires
        t.dom().contains(x),
    ensures
        merge_table(t, es).dom().contains(x),
        merge_table(t, es)[x] == t[x],
    decreases es.len(),
{
    if es.len() == 0 {
    } else {
        lemma_first_write_wins(table_step(t, es[0]), es.drop_first(), x);
    }
}

} // verus!
