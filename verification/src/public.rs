//! From a script to a store.

use crate::db::laws::{all_go_through, flat_replay, law_round_trip, replay};
use crate::db::liveness::{
    all_recolored, law_stops_whatever_the_colors, lemma_alike_transitive, stores_alike,
};
use crate::db::model::{commit_outcome, genesis_store, snapshot, store_wf, FaultAt, StoreView};
use crate::db::paint::{
    law_created_version_stops_by_rule, painted_commit, version_created,
};
use crate::db::store::{Config, Db, StoreError};
use crate::db::version_controller::{CommitView, VersionId};
use crate::geo::color::{Color, ColorType, Position};
use crate::lexer::Cursor;
use crate::parser::commit::commit_views;
use crate::parser::grammar::{script, ParseError};
use crate::parser::StringParser;
use crate::text::copy_of;
use vstd::prelude::*;

verus! {

/// Why a script did not give a store.
#[derive(Debug)]
pub enum Error {
    /// The two ends of the gradient coincide.
    DegenerateRange,
    /// The text is no script.
    Parse(ParseError),
    /// The script holds more commits than there are versions.
    TooManyCommits,
    /// The commit at index `commit` stopped at an action.
    Store { commit: usize, error: StoreError },
}

/// Whether `states` are the stores that `commits` lead through, one after
/// the other from the store before any commit, none of them stopping.
pub open spec fn replayed<G: Fn(Position) -> Color>(
    policy: ColorType<G>,
    commits: Seq<CommitView>,
    states: Seq<StoreView>,
) -> bool {
    &&& states.len() == commits.len() + 1
    &&& states[0] == genesis_store(policy is Gradient)
    &&& forall|j: int|
        0 <= j < commits.len() ==> version_created(
            policy,
            #[trigger] states[j],
            commits[j],
            states[j + 1],
            None,
        )
}

/// Whether each of `colored` is the commit at its place in `plain`, with
/// every color as the policy gives it.
pub open spec fn all_colored<G: Fn(Position) -> Color>(
    policy: ColorType<G>,
    plain: Seq<CommitView>,
    colored: Seq<CommitView>,
) -> bool {
    &&& colored.len() == plain.len()
    &&& forall|j: int|
        0 <= j < plain.len() ==> painted_commit(policy, #[trigger] plain[j], colored[j])
}

/// The store after `k` commits depends on none but those `k`.
pub proof fn lemma_replay_prefix(graded: bool, a: Seq<CommitView>, b: Seq<CommitView>, k: nat)
    requires
        k <= a.len(),
        k <= b.len(),
        forall|j: int| 0 <= j < k ==> a[j] == b[j],
    ensures
        replay(graded, a, k) == replay(graded, b, k),
    decreases k,
{
    if k > 0 {
        lemma_replay_prefix(graded, a, b, (k - 1) as nat);
    }
}

/// What a replay leads through is what its commits give one after the
/// other, once each action has its color: where `states` are the stores
/// that `plain` leads through, there are commits with colors as the policy
/// gives them that all go through and give those very stores.
pub proof fn law_replayed_is_replay<G: Fn(Position) -> Color>(
    policy: ColorType<G>,
    plain: Seq<CommitView>,
    states: Seq<StoreView>,
)
    requires
        replayed(policy, plain, states),
    ensures
        exists|colored: Seq<CommitView>|
            {
                &&& #[trigger] all_colored(policy, plain, colored)
                &&& all_go_through(policy is Gradient, colored, colored.len())
                &&& forall|j: nat| j <= colored.len() ==> states[j as int] == #[trigger] replay(
                    policy is Gradient,
                    colored,
                    j,
                )
            },
    decreases plain.len(),
{
    if plain.len() == 0 {
        let colored = Seq::<CommitView>::empty();
        assert(all_colored(policy, plain, colored));
        assert(all_go_through(policy is Gradient, colored, colored.len()));
    } else {
        let n = (plain.len() - 1) as nat;
        let front = plain.take(n as int);
        let front_states = states.take(n as int + 1);
        assert forall|j: int| 0 <= j < front.len() implies version_created(
            policy,
            #[trigger] front_states[j],
            front[j],
            front_states[j + 1],
            None,
        ) by {
            assert(front_states[j] == states[j]);
            assert(version_created(policy, states[j], plain[j], states[j + 1], None));
        }
        assert(replayed(policy, front, front_states));
        law_replayed_is_replay(policy, front, front_states);
        let before = choose|colored: Seq<CommitView>|
            {
                &&& #[trigger] all_colored(policy, front, colored)
                &&& all_go_through(policy is Gradient, colored, colored.len())
                &&& forall|j: nat|
                    j <= colored.len() ==> front_states[j as int] == #[trigger] replay(
                        policy is Gradient,
                        colored,
                        j,
                    )
            };
        assert(version_created(
            policy,
            states[n as int],
            plain[n as int],
            states[n as int + 1],
            None,
        ));
        let last = choose|c: CommitView|
            painted_commit(policy, plain[n as int], c) && #[trigger] commit_outcome(
                states[n as int],
                c,
            ) == (states[n as int + 1], None::<FaultAt>);
        let colored = before.push(last);
        assert forall|j: int| 0 <= j < plain.len() implies painted_commit(
            policy,
            #[trigger] plain[j],
            colored[j],
        ) by {
            if j < n {
                assert(front[j] == plain[j]);
                assert(painted_commit(policy, front[j], before[j]));
            }
        }
        assert(all_colored(policy, plain, colored));
        assert forall|j: nat| j <= colored.len() implies states[j as int] == #[trigger] replay(
            policy is Gradient,
            colored,
            j,
        ) by {
            if j <= n {
                lemma_replay_prefix(policy is Gradient, before, colored, j);
                assert(front_states[j as int] == replay(policy is Gradient, before, j));
            } else {
                lemma_replay_prefix(policy is Gradient, before, colored, n);
                assert(front_states[n as int] == replay(policy is Gradient, before, n));
                assert(colored[n as int] == last);
            }
        }
        assert forall|j: nat| j < colored.len() implies (#[trigger] commit_outcome(
            replay(policy is Gradient, colored, j),
            colored[j as int],
        )).1 is None by {
            if j < n {
                lemma_replay_prefix(policy is Gradient, before, colored, j);
                assert(commit_outcome(
                    replay(policy is Gradient, before, j),
                    before[j as int],
                ).1 is None);
            } else {
                assert(states[n as int] == replay(policy is Gradient, colored, n));
            }
        }
    }
}

/// Where colors are given outright a replay is settled by its commits:
/// the stores that they lead through are those that they give one after the
/// other as they stand, and each of them goes through.
pub proof fn law_replayed_with_given_colors<G: Fn(Position) -> Color>(
    policy: ColorType<G>,
    commits: Seq<CommitView>,
    states: Seq<StoreView>,
)
    requires
        policy is RGB,
        replayed(policy, commits, states),
    ensures
        all_go_through(policy is Gradient, commits, commits.len()),
        forall|j: nat|
            j <= commits.len() ==> states[j as int] == #[trigger] replay(
                policy is Gradient,
                commits,
                j,
            ),
{
    law_replayed_is_replay(policy, commits, states);
    let colored = choose|colored: Seq<CommitView>|
        {
            &&& #[trigger] all_colored(policy, commits, colored)
            &&& all_go_through(policy is Gradient, colored, colored.len())
            &&& forall|j: nat|
                j <= colored.len() ==> states[j as int] == #[trigger] replay(
                    policy is Gradient,
                    colored,
                    j,
                )
        };
    assert forall|j: int| 0 <= j < commits.len() implies colored[j] == commits[j] by {
        assert(painted_commit(policy, commits[j], colored[j]));
        assert(colored[j].rect_actions =~= commits[j].rect_actions);
        assert(colored[j].line_actions =~= commits[j].line_actions);
    }
    assert(colored =~= commits);
}

/// Whether `commits`, replayed in order from the store before any commit,
/// can all go through and leave the store `last`.
pub open spec fn leads_to<G: Fn(Position) -> Color>(
    policy: ColorType<G>,
    commits: Seq<CommitView>,
    last: StoreView,
) -> bool {
    exists|states: Seq<StoreView>| #[trigger]
        replayed(policy, commits, states) && states.last() == last
}

/// Round trip of a script: where its commits all went through and left the
/// store `last`, that store is at the version that counts them, and its
/// slice at that version holds exactly what the actions of the commits,
/// each with its color as the policy gave it, give when they are replayed
/// one by one without any history.
pub proof fn law_script_round_trip<G: Fn(Position) -> Color>(
    policy: ColorType<G>,
    commits: Seq<CommitView>,
    last: StoreView,
)
    requires
        commits.len() <= u32::MAX,
        leads_to(policy, commits, last),
    ensures
        last.version == VersionId(commits.len() as u32),
        exists|colored: Seq<CommitView>|
            {
                &&& #[trigger] all_colored(policy, commits, colored)
                &&& snapshot(last.rects, last.version) == flat_replay(colored, colored.len()).0
                &&& snapshot(last.lines, last.version) == flat_replay(colored, colored.len()).1
            },
{
    let states = choose|states: Seq<StoreView>| #[trigger]
        replayed(policy, commits, states) && states.last() == last;
    law_replayed_is_replay(policy, commits, states);
    let colored = choose|colored: Seq<CommitView>|
        {
            &&& #[trigger] all_colored(policy, commits, colored)
            &&& all_go_through(policy is Gradient, colored, colored.len())
            &&& forall|j: nat|
                j <= colored.len() ==> states[j as int] == #[trigger] replay(
                    policy is Gradient,
                    colored,
                    j,
                )
        };
    law_round_trip(policy is Gradient, colored, colored.len());
    assert(states[colored.len() as int] == replay(policy is Gradient, colored, colored.len()));
}

/// Whether `commits`, replayed in order from the store before any commit,
/// can go through up to the one at index `commit`, and that one stop at
/// `site`.
pub open spec fn stops_at<G: Fn(Position) -> Color>(
    policy: ColorType<G>,
    commits: Seq<CommitView>,
    commit: int,
    site: FaultAt,
) -> bool {
    &&& 0 <= commit < commits.len()
    &&& exists|before: StoreView, after: StoreView|
        leads_to(policy, commits.take(commit), before) && #[trigger] version_created(
            policy,
            before,
            commits[commit],
            after,
            Some(site),
        )
}

/// The first of the first `k` commits that stops, replayed in order from
/// the store before any commit, and where it stops. No color bears on it.
pub open spec fn first_stop(graded: bool, commits: Seq<CommitView>, k: nat) -> Option<
    (int, FaultAt),
>
    decreases k,
{
    if k == 0 {
        None
    } else {
        match first_stop(graded, commits, (k - 1) as nat) {
            Some(found) => Some(found),
            None => match commit_outcome(
                replay(graded, commits, (k - 1) as nat),
                commits[k - 1],
            ).1 {
                Some(site) => Some((k - 1, site)),
                None => None,
            },
        }
    }
}

/// Once a commit has stopped, that is where the replay stops.
pub proof fn lemma_first_stop_stays(
    graded: bool,
    commits: Seq<CommitView>,
    k: nat,
    n: nat,
)
    requires
        k <= n,
        first_stop(graded, commits, k) is Some,
    ensures
        first_stop(graded, commits, n) == first_stop(graded, commits, k),
    decreases n,
{
    if k < n {
        lemma_first_stop_stays(graded, commits, k, (n - 1) as nat);
    }
}

/// Reads the script `x` and replays its commits, in order, on an empty
/// store with the policy of `cfg`. A gradient whose ends coincide is
/// refused before the script is read; a text that is no script, before any
/// commit is replayed; and the first commit that stops ends the replay.
pub fn parse<G: Fn(Position) -> Color>(x: String, cfg: Config<G>) -> (r: Result<Db<G>, Error>)
    requires
        cfg.color.answers(),
    ensures
        !cfg.color.wf() <==> r matches Err(Error::DegenerateRange),
        cfg.color.wf() ==> match script(vstd::utf8::encode_utf8(x@)) {
            Err(e) => r matches Err(Error::Parse(found)) && found == e,
            Ok(commits) => match r {
                Ok(db) => {
                    &&& first_stop(cfg.color is Gradient, commits, commits.len()) is None
                    &&& db.wf()
                    &&& db.config == cfg
                    &&& db.version.0 == commits.len()
                    &&& leads_to(cfg.color, commits, db@)
                },
                Err(Error::Store { commit, error }) => {
                    &&& commits.len() <= u32::MAX
                    &&& first_stop(cfg.color is Gradient, commits, commits.len()) == Some(
                        (commit as int, error.site()),
                    )
                    &&& stops_at(cfg.color, commits, commit as int, error.site())
                },
                Err(Error::TooManyCommits) => commits.len() > u32::MAX,
                _ => false,
            },
        },
{
    if !cfg.color.has_range() {
        return Err(Error::DegenerateRange);
    }
    let text: &str = x.as_str();
    let cursor = Cursor::new(text);
    let bytes = copy_of(text.as_bytes());
    let parser = StringParser::new(&bytes, cursor);
    let commits = match parser.parse() {
        Ok(v) => v,
        Err(e) => {
            return Err(Error::Parse(e));
        },
    };
    if commits.len() > u32::MAX as usize {
        return Err(Error::TooManyCommits);
    }
    let ghost plain = commit_views(commits@);
    let ghost policy = cfg.color;
    let ghost graded = cfg.color is Gradient;
    let mut db = Db::new(cfg);
    let ghost mut states: Seq<StoreView> = seq![db@];
    let mut index: usize = 0;
    for commit in it: commits
        invariant
            index == it.index(),
            plain == commit_views(it.seq()),
            plain.len() <= u32::MAX,
            script(vstd::utf8::encode_utf8(x@)) == Ok::<Seq<CommitView>, ParseError>(plain),
            policy == cfg.color,
            graded == (policy is Gradient),
            policy.wf(),
            db.wf(),
            db.config.color == policy,
            db.config == cfg,
            db.version.0 == index,
            replayed(policy, plain.take(index as int), states),
            db@ == states.last(),
            first_stop(graded, plain, index as nat) is None,
            stores_alike(replay(graded, plain, index as nat), db@),
            store_wf(replay(graded, plain, index as nat)),
    {
        let ghost before = db@;
        let ghost here = states;
        let ghost plainly = replay(graded, plain, index as nat);
        assert(commit@ == plain[index as int]);
        proof {
            let c = plain[index as int];
            assert(all_recolored(c.rect_actions, c.rect_actions));
            assert(all_recolored(c.line_actions, c.line_actions));
            law_stops_whatever_the_colors(plainly, before, c, c);
        }
        match db.create_version(commit) {
            Ok(()) => {},
            Err(error) => {
                proof {
                    assert(replayed(policy, plain.take(index as int), here));
                    assert(leads_to(policy, plain.take(index as int), here.last()));
                    assert(version_created(
                        policy,
                        here.last(),
                        plain[index as int],
                        db@,
                        Some(error.site()),
                    ));
                    assert(stops_at(policy, plain, index as int, error.site()));
                    assert(first_stop(graded, plain, (index + 1) as nat) == Some(
                        (index as int, error.site()),
                    ));
                    lemma_first_stop_stays(graded, plain, (index + 1) as nat, plain.len());
                }
                return Err(Error::Store { commit: index, error });
            },
        }
        proof {
            let c = plain[index as int];
            law_created_version_stops_by_rule(policy, before, c, db@, None);
            let straight = commit_outcome(before, c).0;
            let next = commit_outcome(plainly, c).0;
            lemma_alike_transitive(next.rects, straight.rects, db@.rects);
            lemma_alike_transitive(next.lines, straight.lines, db@.lines);
            assert(first_stop(graded, plain, (index + 1) as nat) is None);
            states = here.push(db@);
            let done = plain.take(index + 1);
            assert forall|j: int| 0 <= j < done.len() implies version_created(
                policy,
                #[trigger] states[j],
                done[j],
                states[j + 1],
                None,
            ) by {
                if j < index {
                    assert(plain.take(index as int)[j] == done[j]);
                    assert(here[j] == states[j]);
                    assert(here[j + 1] == states[j + 1]);
                }
            }
        }
        index += 1;
    }
    proof {
        assert(plain.take(index as int) =~= plain);
        assert(replayed(policy, plain, states));
    }
    Ok(db)
}

} // verus!
