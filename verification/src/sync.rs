use vstd::prelude::*;

verus! {

use crate::pipeline::{
    TopicOutcome,
    body_view,
    topic_step,
    feed_entries_of,
    lemma_merge_mono,
    lemma_merge_covers,
    lemma_merge_noop,
    process_topic,
};
use crate::registry::{DocumentRegistry, MetaView};

/// The fixed first part of a query target: the endpoint and its search
/// parameter; the topic token follows it.
pub const QUERY_PREFIX: &'static str = "http://export.arxiv.org/api/query?search_query=";

/// The fixed last part of a query target: first page, at most 100 results,
/// most recent submissions first.
pub const QUERY_SUFFIX: &'static str = "&start=0&max_results=100&sortBy=submittedDate&sortOrder=descending";

/// Builds the query target for one topic: the fixed prefix, the topic token,
/// the fixed pagination and sort suffix.
pub fn topic_url(topic: &str) -> (r: String)
    ensures
        r@ == QUERY_PREFIX@ + topic@ + QUERY_SUFFIX@,
{
    let mut r = String::from_str(QUERY_PREFIX);
    r.append(topic);
    r.append(QUERY_SUFFIX);
    proof {
        assert(r@ =~= QUERY_PREFIX@ + topic@ + QUERY_SUFFIX@);
    }
    r
}

/// The fixed closed list of topic tokens that one run covers.
pub fn default_topics() -> (r: Vec<String>)
    ensures
        r@.len() == 6,
        r@[0]@ == "cs.ai"@,
        r@[1]@ == "cs.lg"@,
        r@[2]@ == "cs.ma"@,
        r@[3]@ == "cs.ne"@,
        r@[4]@ == "cs.ro"@,
        r@[5]@ == "cs.sy"@,
{
    let mut r: Vec<String> = Vec::new();
    r.push(String::from_str("cs.ai"));
    r.push(String::from_str("cs.lg"));
    r.push(String::from_str("cs.ma"));
    r.push(String::from_str("cs.ne"));
    r.push(String::from_str("cs.ro"));
    r.push(String::from_str("cs.sy"));
    r
}

/// One topic's fetch result, as the transport hands it over: the topic token
/// and the response body, `None` where the fetch failed.
#[derive(Debug)]
pub struct TopicResponse {
    pub topic: String,
    pub body: Option<String>,
}

/// One topic's line in a run report.
#[derive(Debug)]
pub struct TopicReport {
    pub topic: String,
    pub outcome: TopicOutcome,
}

/// The bodies of a response list, in order.
pub open spec fn bodies_view(rs: Seq<TopicResponse>) -> Seq<Option<Seq<char>>> {
    rs.map_values(|r: TopicResponse| body_view(r.body))
}

/// What a whole cycle does to a metadata table: each topic's response is
/// applied in order; failed topics change nothing.
pub open spec fn cycle_table(t: Map<Seq<char>, MetaView>, rs: Seq<Option<Seq<char>>>) -> Map<
    Seq<char>,
    MetaView,
>
    decreases rs.len(),
{
    if rs.len() == 0 {
        t
    } else {
        cycle_table(topic_step(t, rs[0]), rs.drop_first())
    }
}

/// Applying one more response at the end is one more step on the cycled table.
pub proof fn lemma_cycle_push(
    t: Map<Seq<char>, MetaView>,
    rs: Seq<Option<Seq<char>>>,
    r: Option<Seq<char>>,
)
    ensures
        cycle_table(t, rs.push(r)) == topic_step(cycle_table(t, rs), r),
    decreases rs.len(),
{
    if rs.len() == 0 {
        assert(rs.push(r)[0] == r);
        assert(rs.push(r).drop_first() =~= Seq::<Option<Seq<char>>>::empty());
        assert(cycle_table(topic_step(t, r), Seq::<Option<Seq<char>>>::empty()) == topic_step(
            t,
            r,
        ));
        assert(cycle_table(t, rs.push(r)) == cycle_table(
            topic_step(t, rs.push(r)[0]),
            rs.push(r).drop_first(),
        ));
    } else {
        assert(rs.push(r)[0] == rs[0]);
        assert(rs.push(r).drop_first() =~= rs.drop_first().push(r));
        lemma_cycle_push(topic_step(t, rs[0]), rs.drop_first(), r);
        assert(cycle_table(t, rs.push(r)) == cycle_table(
            topic_step(t, rs[0]),
            rs.drop_first().push(r),
        ));
        assert(cycle_table(t, rs) == cycle_table(topic_step(t, rs[0]), rs.drop_first()));
    }
}

/// Runs one full cycle over the given responses: merges every topic that
/// fetched and parsed, skips every topic that failed, and reports every
/// topic's outcome in order. A topic's failure never aborts the run and
/// never touches what other topics merged.
pub fn run_cycle(reg: &mut DocumentRegistry, responses: &Vec<TopicResponse>) -> (report: Vec<
    TopicReport,
>)
    requires
        old(reg).wf(),
    ensures
        final(reg).wf(),
        final(reg).read_set() == old(reg).read_set(),
        final(reg).table() == cycle_table(old(reg).table(), bodies_view(responses@)),
        report@.len() == responses@.len(),
        forall|i: int|
            0 <= i < responses@.len() ==> (#[trigger] report@[i]).topic@ == responses@[i].topic@,
        forall|i: int|
            0 <= i < responses@.len() ==> ((#[trigger] report@[i]).outcome
                == TopicOutcome::TransportFailed <==> responses@[i].body is None),
        forall|i: int|
            0 <= i < responses@.len() ==> ((#[trigger] report@[i]).outcome
                == TopicOutcome::ParseFailed <==> (responses@[i].body matches Some(b)
                && feed_entries_of(b@) is None)),
        forall|i: int|
            0 <= i < responses@.len() ==> ((#[trigger] report@[i]).outcome matches
                TopicOutcome::Merged(n) ==> n == cycle_table(
                old(reg).table(),
                bodies_view(responses@).take(i + 1),
            ).dom().len() - cycle_table(old(reg).table(), bodies_view(responses@).take(i)).dom().len()),
{
    let ghost t0 = reg.table();
    let ghost bodies = bodies_view(responses@);
    let mut report: Vec<TopicReport> = Vec::new();
    let mut i: usize = 0;
    while i < responses.len()
        invariant
            i <= responses.len(),
            reg.wf(),
            reg.read_set() == old(reg).read_set(),
            t0 == old(reg).table(),
            bodies == bodies_view(responses@),
            reg.table() == cycle_table(t0, bodies.take(i as int)),
            report@.len() == i,
            forall|k: int|
                0 <= k < i ==> (#[trigger] report@[k]).topic@ == responses@[k].topic@,
            forall|k: int|
                0 <= k < i ==> ((#[trigger] report@[k]).outcome == TopicOutcome::TransportFailed
                    <==> responses@[k].body is None),
            forall|k: int|
                0 <= k < i ==> ((#[trigger] report@[k]).outcome == TopicOutcome::ParseFailed <==> (
                responses@[k].body matches Some(b) && feed_entries_of(b@) is None)),
            forall|k: int|
                0 <= k < i ==> ((#[trigger] report@[k]).outcome matches TopicOutcome::Merged(n)
                    ==> n == cycle_table(t0, bodies.take(k + 1)).dom().len() - cycle_table(
                    t0,
                    bodies.take(k),
                ).dom().len()),
        decreases responses.len() - i,
    {
        let ghost t_pre = reg.table();
        let outcome = process_topic(reg, &responses[i].body);
        proof {
            assert(bodies[i as int] == body_view(responses@[i as int].body));
            assert(bodies.take(i as int + 1) =~= bodies.take(i as int).push(bodies[i as int]));
            lemma_cycle_push(t0, bodies.take(i as int), bodies[i as int]);
        }
        report.push(TopicReport { topic: responses[i].topic.clone(), outcome });
        i += 1;
    }
    proof {
        assert(bodies.take(responses@.len() as int) =~= bodies);
    }
    report
}

/// Whether one response has nothing to add to the table `t`: it failed, it
/// did not parse, or every entry it carries is present already.
pub open spec fn covered_one(t: Map<Seq<char>, MetaView>, r: Option<Seq<char>>) -> bool {
    match r {
        None => true,
        Some(body) => match feed_entries_of(body) {
            None => true,
            Some(es) => forall|j: int|
                0 <= j < es.len() ==> t.dom().contains((#[trigger] es[j]).0),
        },
    }
}

/// Whether no response in the list has anything to add to the table `t`.
pub open spec fn covered(t: Map<Seq<char>, MetaView>, rs: Seq<Option<Seq<char>>>) -> bool {
    forall|i: int| 0 <= i < rs.len() ==> covered_one(t, #[trigger] rs[i])
}

/// A response with nothing to add changes nothing.
proof fn lemma_topic_noop(t: Map<Seq<char>, MetaView>, r: Option<Seq<char>>)
    requires
        covered_one(t, r),
    ensures
        topic_step(t, r) == t,
{
    match r {
        None => {},
        Some(body) => match feed_entries_of(body) {
            None => {},
            Some(es) => {
                lemma_merge_noop(t, es);
            },
        },
    }
}

/// One step never drops a key from the table.
proof fn lemma_topic_mono(t: Map<Seq<char>, MetaView>, r: Option<Seq<char>>, x: Seq<char>)
    requires
        t.dom().contains(x),
    ensures
        topic_step(t, r).dom().contains(x),
{
    match r {
        None => {},
        Some(body) => match feed_entries_of(body) {
            None => {},
            Some(es) => {
                lemma_merge_mono(t, es, x);
            },
        },
    }
}

/// A cycle never drops a key from the table.
proof fn lemma_cycle_mono(t: Map<Seq<char>, MetaView>, rs: Seq<Option<Seq<char>>>, x: Seq<char>)
    requires
        t.dom().contains(x),
    ensures
        cycle_table(t, rs).dom().contains(x),
    decreases rs.len(),
{
    if rs.len() == 0 {
    } else {
        lemma_topic_mono(t, rs[0], x);
        lemma_cycle_mono(topic_step(t, rs[0]), rs.drop_first(), x);
    }
}

/// A cycle over responses with nothing to add changes nothing.
proof fn lemma_cycle_noop(t: Map<Seq<char>, MetaView>, rs: Seq<Option<Seq<char>>>)
    requires
        covered(t, rs),
    ensures
        cycle_table(t, rs) == t,
    decreases rs.len(),
{
    if rs.len() == 0 {
    } else {
        assert(covered_one(t, rs[0]));
        lemma_topic_noop(t, rs[0]);
        assert forall|i: int| 0 <= i < rs.drop_first().len() implies covered_one(
            t,
            #[trigger] rs.drop_first()[i],
        ) by {
            assert(rs.drop_first()[i] == rs[i + 1]);
        }
        lemma_cycle_noop(t, rs.drop_first());
    }
}

/// After a cycle, no response of that cycle has anything left to add.
proof fn lemma_cycle_covers(t: Map<Seq<char>, MetaView>, rs: Seq<Option<Seq<char>>>)
    ensures
        covered(cycle_table(t, rs), rs),
    decreases rs.len(),
{
    if rs.len() == 0 {
    } else {
        let t1 = topic_step(t, rs[0]);
        let c = cycle_table(t, rs);
        lemma_cycle_covers(t1, rs.drop_first());
        assert(c == cycle_table(t1, rs.drop_first()));
        // The first response's entries all stand in t1, and the rest of the
        // cycle keeps them.
        assert(covered_one(c, rs[0])) by {
            match rs[0] {
                None => {},
                Some(body) => match feed_entries_of(body) {
                    None => {},
                    Some(es) => {
                        assert forall|j: int| 0 <= j < es.len() implies c.dom().contains(
                            (#[trigger] es[j]).0,
                        ) by {
                            lemma_merge_covers(t, es, j);
                            lemma_cycle_mono(t1, rs.drop_first(), es[j].0);
                        }
                    },
                },
            }
        }
        assert forall|i: int| 0 <= i < rs.len() implies covered_one(c, #[trigger] rs[i]) by {
            if i > 0 {
                assert(rs.drop_first()[i - 1] == rs[i]);
                assert(covered_one(c, rs.drop_first()[i - 1]));
            }
        }
    }
}

/// Law: a cycle is idempotent. Running the pipeline a second time over
/// identical responses leaves the metadata table, and with it the fetched
/// set, exactly as the first run left it.
pub proof fn lemma_cycle_idempotent(t: Map<Seq<char>, MetaView>, rs: Seq<Option<Seq<char>>>)
    ensures
        cycle_table(cycle_table(t, rs), rs) == cycle_table(t, rs),
{
    lemma_cycle_covers(t, rs);
    lemma_cycle_noop(cycle_table(t, rs), rs);
}

/// Law: per-topic failures are isolated. A response that failed to fetch or
/// to parse contributes nothing: the cycle's table is that of the cycle with
/// the response left out, and the other topics' entries are all merged.
pub proof fn lemma_failed_topic_isolated(
    t: Map<Seq<char>, MetaView>,
    rs: Seq<Option<Seq<char>>>,
    i: int,
)
    requires
        0 <= i < rs.len(),
        rs[i] is None || (rs[i] matches Some(body) && feed_entries_of(body) is None),
    ensures
        cycle_table(t, rs) == cycle_table(t, rs.remove(i)),
    decreases rs.len(),
{
    if i == 0 {
        assert(topic_step(t, rs[0]) == t);
        assert(rs.remove(0) =~= rs.drop_first());
    } else {
        let t1 = topic_step(t, rs[0]);
        lemma_failed_topic_isolated(t1, rs.drop_first(), i - 1);
        assert(rs.drop_first()[i - 1] == rs[i]);
        assert(rs.remove(i)[0] == rs[0]);
        assert(rs.remove(i).drop_first() =~= rs.drop_first().remove(i - 1));
    }
}

} // verus!
