//! What is done for one client, from the handshake to the end of its connection.
use vstd::prelude::*;

verus! {

/// How far the service of a client has come; each stage waits for one piece of work,
/// which may fail with an error of type `E`.
#[derive(Debug)]
pub enum Session<E> {
    /// The client is to be entered among the peers.
    Register,
    /// The snapshots are to be copied.
    Collect,
    /// Snapshot `next` of the copied ones is to be fed to the client.
    Feed { messages: Vec<String>, next: usize },
    /// What was fed is to be flushed.
    Flush,
    /// The updates are to be forwarded until the client or the channel ends.
    Forward,
    /// The client is to be taken out of the peers, after the error, if any, that ended
    /// its service.
    Deregister { failure: Option<E> },
    /// Nothing is left to be done.
    Closed { failure: Option<E> },
}

/// The work that a session waits for.
#[derive(Debug)]
pub enum Action {
    Register,
    Collect,
    Feed { message: String },
    Flush,
    Forward,
    Deregister,
    Stop,
}

/// What came of the work.
#[derive(Debug)]
pub enum Outcome<E> {
    Done,
    Collected { messages: Vec<String> },
    Failed { error: E },
}

/// A session, with the texts of its messages.
pub enum Stage<E> {
    Register,
    Collect,
    Feed { messages: Seq<Seq<char>>, next: nat },
    Flush,
    Forward,
    Deregister { failure: Option<E> },
    Closed { failure: Option<E> },
}

/// The work that a stage waits for.
pub enum Work {
    Register,
    Collect,
    Feed { message: Seq<char> },
    Flush,
    Forward,
    Deregister,
    Stop,
}

/// What came of the work, with the texts of the messages.
pub enum Reply<E> {
    Done,
    Collected { messages: Seq<Seq<char>> },
    Failed { error: E },
}

/// The texts of the given strings.
pub open spec fn texts(messages: Seq<String>) -> Seq<Seq<char>> {
    messages.map_values(|message: String| message@)
}

impl<E> View for Session<E> {
    type V = Stage<E>;

    open spec fn view(&self) -> Stage<E> {
        match *self {
            Session::Register => Stage::Register,
            Session::Collect => Stage::Collect,
            Session::Feed { messages, next } => Stage::Feed {
                messages: texts(messages@),
                next: next as nat,
            },
            Session::Flush => Stage::Flush,
            Session::Forward => Stage::Forward,
            Session::Deregister { failure } => Stage::Deregister { failure },
            Session::Closed { failure } => Stage::Closed { failure },
        }
    }
}

impl View for Action {
    type V = Work;

    open spec fn view(&self) -> Work {
        match *self {
            Action::Register => Work::Register,
            Action::Collect => Work::Collect,
            Action::Feed { message } => Work::Feed { message: message@ },
            Action::Flush => Work::Flush,
            Action::Forward => Work::Forward,
            Action::Deregister => Work::Deregister,
            Action::Stop => Work::Stop,
        }
    }
}

impl<E> View for Outcome<E> {
    type V = Reply<E>;

    open spec fn view(&self) -> Reply<E> {
        match *self {
            Outcome::Done => Reply::Done,
            Outcome::Collected { messages } => Reply::Collected { messages: texts(messages@) },
            Outcome::Failed { error } => Reply::Failed { error },
        }
    }
}

impl<E> Stage<E> {
    /// A message to be fed is one of the copied ones.
    pub open spec fn wf(self) -> bool {
        self matches Stage::Feed { messages, next } ==> next < messages.len()
    }

    /// The work that the stage waits for.
    pub open spec fn work(self) -> Work {
        match self {
            Stage::Register => Work::Register,
            Stage::Collect => Work::Collect,
            Stage::Feed { messages, next } => Work::Feed { message: messages[next as int] },
            Stage::Flush => Work::Flush,
            Stage::Forward => Work::Forward,
            Stage::Deregister { .. } => Work::Deregister,
            Stage::Closed { .. } => Work::Stop,
        }
    }

    /// The reply is one that the work of this stage can have: the peers can always be
    /// changed and the snapshots always be copied; what is written to the client can
    /// fail.
    pub open spec fn expects(self, reply: Reply<E>) -> bool {
        match self {
            Stage::Register => reply is Done,
            Stage::Collect => reply is Collected,
            Stage::Feed { .. } => !(reply is Collected),
            Stage::Flush => !(reply is Collected),
            Stage::Forward => !(reply is Collected),
            Stage::Deregister { .. } => reply is Done,
            Stage::Closed { .. } => false,
        }
    }

    /// The stage after the work: a failure takes the client out at once, and a client
    /// is forwarded updates only after all snapshots were fed and flushed.
    pub open spec fn after(self, reply: Reply<E>) -> Stage<E> {
        match (self, reply) {
            (Stage::Register, _) => Stage::Collect,
            (Stage::Collect, Reply::Collected { messages }) => if messages.len() == 0 {
                Stage::Flush
            } else {
                Stage::Feed { messages, next: 0 }
            },
            (Stage::Deregister { failure }, _) => Stage::Closed { failure },
            (_, Reply::Failed { error }) => Stage::Deregister { failure: Some(error) },
            (Stage::Feed { messages, next }, _) => if next + 1 < messages.len() {
                Stage::Feed { messages, next: next + 1 }
            } else {
                Stage::Flush
            },
            (Stage::Flush, _) => Stage::Forward,
            (Stage::Forward, _) => Stage::Deregister { failure: None },
            (stage, _) => stage,
        }
    }
}

impl<E> Session<E> {
    /// The service of a client whose handshake is done.
    pub fn begin() -> (r: Session<E>)
        ensures
            r@ == Stage::<E>::Register,
            r is Register,
    {
        Session::Register
    }

    /// The work to be done next.
    pub fn action(&self) -> (r: Action)
        requires
            self@.wf(),
        ensures
            r@ == self@.work(),
            match *self {
                Session::Register => r is Register,
                Session::Collect => r is Collect,
                Session::Feed { messages, next } => r matches Action::Feed { message } && message@
                    == messages@[next as int]@,
                Session::Flush => r is Flush,
                Session::Forward => r is Forward,
                Session::Deregister { .. } => r is Deregister,
                Session::Closed { .. } => r is Stop,
            },
    {
        match self {
            Session::Register => Action::Register,
            Session::Collect => Action::Collect,
            Session::Feed { messages, next } => Action::Feed { message: messages[*next].clone() },
            Session::Flush => Action::Flush,
            Session::Forward => Action::Forward,
            Session::Deregister { .. } => Action::Deregister,
            Session::Closed { .. } => Action::Stop,
        }
    }

    /// The session after its work had the given outcome.
    pub fn advance(self, outcome: Outcome<E>) -> (r: Session<E>)
        requires
            self@.wf(),
            self@.expects(outcome@),
        ensures
            r@.wf(),
            r@ == self@.after(outcome@),
            self is Register ==> r is Collect,
            self is Collect ==> (outcome matches Outcome::Collected { messages } && {
                &&& messages@.len() == 0 ==> r is Flush
                &&& messages@.len() > 0 ==> r == (Session::<E>::Feed { messages, next: 0 })
            }),
            self is Feed || self is Flush || self is Forward ==> match outcome {
                Outcome::Failed { error } => r == (Session::Deregister { failure: Some(error) }),
                _ => match self {
                    Session::Feed { messages, next } => {
                        &&& next + 1 < messages@.len() ==> (r matches Session::Feed {
                            messages: same,
                            next: following,
                        } && same == messages && following == next + 1)
                        &&& next + 1 == messages@.len() ==> r is Flush
                    },
                    Session::Flush => r is Forward,
                    _ => r == (Session::Deregister { failure: None::<E> }),
                },
            },
            self matches Session::Deregister { failure } ==> r == (Session::Closed { failure }),
    {
        match self {
            Session::Register => Session::Collect,
            Session::Collect => match outcome {
                Outcome::Collected { messages } => if messages.len() == 0 {
                    Session::Flush
                } else {
                    Session::Feed { messages, next: 0 }
                },
                _ => Session::Collect,
            },
            Session::Feed { messages, next } => match outcome {
                Outcome::Failed { error } => Session::Deregister { failure: Some(error) },
                _ => if next < messages.len() - 1 {
                    Session::Feed { messages, next: next + 1 }
                } else {
                    Session::Flush
                },
            },
            Session::Flush => match outcome {
                Outcome::Failed { error } => Session::Deregister { failure: Some(error) },
                _ => Session::Forward,
            },
            Session::Forward => match outcome {
                Outcome::Failed { error } => Session::Deregister { failure: Some(error) },
                _ => Session::Deregister { failure: None },
            },
            Session::Deregister { failure } => Session::Closed { failure },
            Session::Closed { failure } => Session::Closed { failure },
        }
    }
}

/// Stages and replies tell of sessions and outcomes what they hold: the kind, the texts
/// of all messages in order, the place, and the error.
pub proof fn law_stages_tell_what_sessions_hold<E>(session: Session<E>, outcome: Outcome<E>)
    ensures
        match session {
            Session::Register => session@ is Register,
            Session::Collect => session@ is Collect,
            Session::Feed { messages, next } => session@ matches Stage::Feed {
                messages: shown,
                next: place,
            } && place == next && shown.len() == messages@.len() && (forall|i: int|
                0 <= i < messages@.len() ==> (#[trigger] shown[i]) == messages@[i]@),
            Session::Flush => session@ is Flush,
            Session::Forward => session@ is Forward,
            Session::Deregister { failure } => session@ == (Stage::Deregister { failure }),
            Session::Closed { failure } => session@ == (Stage::Closed { failure }),
        },
        match outcome {
            Outcome::Done => outcome@ is Done,
            Outcome::Collected { messages } => outcome@ matches Reply::Collected {
                messages: shown,
            } && shown.len() == messages@.len() && (forall|i: int|
                0 <= i < messages@.len() ==> (#[trigger] shown[i]) == messages@[i]@),
            Outcome::Failed { error } => outcome@ == (Reply::Failed { error }),
        },
{
}

/// The stage of a session after the given replies.
pub open spec fn stage_after<E>(replies: Seq<Reply<E>>) -> Stage<E>
    decreases replies.len(),
{
    if replies.len() == 0 {
        Stage::Register
    } else {
        stage_after(replies.drop_last()).after(replies.last())
    }
}

/// The replies are such as the work of a session can have.
pub open spec fn is_history<E>(replies: Seq<Reply<E>>) -> bool
    decreases replies.len(),
{
    replies.len() == 0 || {
        &&& is_history(replies.drop_last())
        &&& stage_after(replies.drop_last()).expects(replies.last())
    }
}

/// Whether the client is among the peers after the given replies: its own
/// registration and removal are the only work that changes that.
pub open spec fn is_registered<E>(replies: Seq<Reply<E>>) -> bool
    decreases replies.len(),
{
    if replies.len() == 0 {
        false
    } else {
        match stage_after(replies.drop_last()).work() {
            Work::Register => true,
            Work::Deregister => false,
            _ => is_registered(replies.drop_last()),
        }
    }
}

/// The messages that were fed to the client with success.
pub open spec fn fed<E>(replies: Seq<Reply<E>>) -> Seq<Seq<char>>
    decreases replies.len(),
{
    if replies.len() == 0 {
        Seq::empty()
    } else {
        let before = fed(replies.drop_last());
        match (stage_after(replies.drop_last()).work(), replies.last()) {
            (Work::Feed { message }, Reply::Done) => before.push(message),
            _ => before,
        }
    }
}

/// The snapshots that were copied for the client.
pub open spec fn collected<E>(replies: Seq<Reply<E>>) -> Seq<Seq<char>>
    decreases replies.len(),
{
    if replies.len() == 0 {
        Seq::empty()
    } else {
        match replies.last() {
            Reply::Collected { messages } => messages,
            _ => collected(replies.drop_last()),
        }
    }
}

/// A client is among the peers from its registration until its removal, and a
/// session that is closed has taken its client out, whether it failed or not.
pub proof fn law_closed_sessions_leave_no_peer<E>(replies: Seq<Reply<E>>)
    requires
        is_history(replies),
    ensures
        stage_after(replies) is Closed ==> !is_registered(replies),
        stage_after(replies) is Register ==> !is_registered(replies),
        !(stage_after(replies) is Closed || stage_after(replies) is Register) ==> is_registered(
            replies,
        ),
    decreases replies.len(),
{
    if replies.len() > 0 {
        law_closed_sessions_leave_no_peer(replies.drop_last());
    }
}

/// The snapshots are fed in the order in which they were copied, each once: what was
/// fed is always a beginning of what was copied, and all of it when it comes to the
/// flush and to the updates.
pub proof fn law_snapshots_come_before_updates<E>(replies: Seq<Reply<E>>)
    requires
        is_history(replies),
    ensures
        stage_after(replies).wf(),
        fed(replies).len() <= collected(replies).len(),
        fed(replies) == collected(replies).take(fed(replies).len() as int),
        stage_after(replies) matches Stage::Feed { messages, next } ==> messages == collected(
            replies,
        ) && next == fed(replies).len(),
        stage_after(replies) is Flush || stage_after(replies) is Forward ==> fed(replies)
            == collected(replies),
        stage_after(replies) is Register || stage_after(replies) is Collect ==> fed(replies).len()
            == 0,
    decreases replies.len(),
{
    if replies.len() > 0 {
        let before = replies.drop_last();
        law_snapshots_come_before_updates(before);
        if stage_after(before) is Feed && replies.last() is Done {
            let next = fed(before).len() as int;
            assert(collected(before).take(next + 1) =~= collected(before).take(next).push(
                collected(before)[next],
            ));
            assert(collected(replies).take(collected(replies).len() as int) =~= collected(replies));
        }
        if stage_after(before) is Collect {
            assert(collected(replies).take(0) =~= Seq::<Seq<char>>::empty());
            assert(fed(replies) =~= Seq::<Seq<char>>::empty());
        }
    } else {
        assert(collected(replies).take(0) =~= fed(replies));
    }
}

/// A session without a failure makes its full course: the client is registered, the
/// snapshots are copied, each of them is fed in its turn, what was fed is flushed, the
/// updates are forwarded to their end, and only then is the client taken out. How far
/// it has come is told by the number of replies.
pub proof fn law_sessions_make_their_full_course<E>(replies: Seq<Reply<E>>)
    requires
        is_history(replies),
        forall|i: int| 0 <= i < replies.len() ==> !((#[trigger] replies[i]) is Failed),
    ensures
        forall|i: int|
            0 <= i < replies.len() ==> if i == 1 {
                (#[trigger] replies[i]) is Collected
            } else {
                replies[i] is Done
            },
        replies.len() == 0 ==> stage_after(replies) is Register,
        replies.len() == 1 ==> stage_after(replies) is Collect,
        replies.len() >= 2 ==> (replies[1] matches Reply::Collected { messages } && {
            let n = messages.len();
            &&& replies.len() <= n + 5
            &&& replies.len() < n + 2 ==> stage_after(replies) == (Stage::<E>::Feed {
                messages,
                next: (replies.len() - 2) as nat,
            })
            &&& replies.len() == n + 2 ==> stage_after(replies) is Flush
            &&& replies.len() == n + 3 ==> stage_after(replies) is Forward
            &&& replies.len() == n + 4 ==> stage_after(replies) == (Stage::<E>::Deregister {
                failure: None,
            })
            &&& replies.len() == n + 5 ==> stage_after(replies) == (Stage::<E>::Closed {
                failure: None,
            })
            &&& replies.len() < n + 2 ==> fed(replies) == messages.take(replies.len() - 2)
            &&& replies.len() >= n + 2 ==> fed(replies) == messages
        }),
    decreases replies.len(),
{
    law_snapshots_come_before_updates(replies);
    if replies.len() > 0 {
        let before = replies.drop_last();
        let last = replies.len() - 1;
        assert(forall|i: int| 0 <= i < before.len() ==> (#[trigger] before[i]) == replies[i]);
        assert(replies.last() == replies[last]);
        law_sessions_make_their_full_course(before);
        if last >= 2 {
            assert(before[1] == replies[1]);
        }
        assert forall|i: int| 0 <= i < replies.len() implies if i == 1 {
            (#[trigger] replies[i]) is Collected
        } else {
            replies[i] is Done
        } by {
            if i < last {
                assert(before[i] == replies[i]);
            }
        }
        if last >= 2 {
            let messages = replies[1]->messages;
            assert(fed(before).len() <= messages.len());
            if last < messages.len() + 2 {
                assert(stage_after(before).work() == (Work::Feed { message: messages[last - 2] }));
                assert(fed(replies) == fed(before).push(messages[last - 2]));
                assert(messages.take(last - 2).push(messages[last - 2]) =~= messages.take(last - 1));
                if last - 1 == messages.len() {
                    assert(messages.take(last - 1) =~= messages);
                }
            } else {
                assert(fed(replies) == fed(before));
            }
        } else if last == 1 {
            let messages = replies[1]->messages;
            assert(fed(replies) == fed(before));
            assert(fed(before) =~= Seq::<Seq<char>>::empty());
            assert(messages.take(0) =~= fed(replies));
            if messages.len() == 0 {
                assert(messages =~= fed(replies));
            }
        }
    }
}

/// Whatever snapshots are copied, every course can be taken: each of the replies of a
/// session without a failure is one that its work can have, and each piece of work
/// between the copying and the client's removal can also fail, after which the client
/// is taken out.
pub proof fn law_every_course_can_be_taken<E>(replies: Seq<Reply<E>>, error: E)
    requires
        forall|i: int|
            0 <= i < replies.len() ==> if i == 1 {
                (#[trigger] replies[i]) is Collected
            } else {
                replies[i] is Done
            },
        replies.len() >= 2 ==> replies.len() <= replies[1]->messages.len() + 5,
    ensures
        is_history(replies),
        2 <= replies.len() < replies[1]->messages.len() + 4 ==> is_history(
            replies.push(Reply::Failed { error }),
        ) && is_history(replies.push(Reply::Failed { error }).push(Reply::Done)),
    decreases replies.len(),
{
    if replies.len() > 0 {
        let before = replies.drop_last();
        let last = replies.len() - 1;
        assert(forall|i: int| 0 <= i < before.len() ==> (#[trigger] before[i]) == replies[i]);
        assert(replies.last() == replies[last]);
        if last >= 2 {
            assert(before[1] == replies[1]);
        }
        law_every_course_can_be_taken(before, error);
        law_sessions_make_their_full_course(before);
        assert(is_history(replies));
        law_sessions_make_their_full_course(replies);
        if 2 <= replies.len() < replies[1]->messages.len() + 4 {
            let cut = replies.push(Reply::Failed { error });
            assert(cut.drop_last() =~= replies);
            assert(is_history(cut));
            assert(cut.push(Reply::Done).drop_last() =~= cut);
            assert(stage_after(cut) is Deregister);
        }
    }
}

/// A failure cuts the course short: it comes after the snapshots were copied and before
/// the forwarding has ended, the client's removal follows at once, and nothing behind
/// that.
pub proof fn law_failures_cut_the_course_short<E>(replies: Seq<Reply<E>>, f: int)
    requires
        is_history(replies),
        0 <= f < replies.len(),
        replies[f] is Failed,
        forall|i: int| 0 <= i < f ==> !((#[trigger] replies[i]) is Failed),
    ensures
        f >= 2,
        replies[1] matches Reply::Collected { messages } && f < messages.len() + 4,
        replies.len() <= f + 2,
        replies.len() == f + 1 ==> stage_after(replies) == (Stage::<E>::Deregister {
            failure: Some(replies[f]->error),
        }),
        replies.len() == f + 2 ==> replies[f + 1] is Done && stage_after(replies) == (Stage::<
            E,
        >::Closed { failure: Some(replies[f]->error) }),
    decreases replies.len(),
{
    let before = replies.drop_last();
    assert(replies.last() == replies[replies.len() - 1]);
    assert(forall|i: int| 0 <= i < before.len() ==> (#[trigger] before[i]) == replies[i]);
    if f < replies.len() - 1 {
        law_failures_cut_the_course_short(before, f);
    } else {
        law_sessions_make_their_full_course(before);
        if before.len() >= 2 {
            assert(before[1] == replies[1]);
        }
    }
}

/// The error of the first work that failed.
pub open spec fn first_failure<E>(replies: Seq<Reply<E>>) -> Option<E>
    decreases replies.len(),
{
    if replies.len() == 0 {
        None
    } else {
        match (first_failure(replies.drop_last()), replies.last()) {
            (Some(error), _) => Some(error),
            (None, Reply::Failed { error }) => Some(error),
            _ => None,
        }
    }
}

/// A session ends with the error of its first work that failed, and without one where
/// none failed.
pub proof fn law_sessions_end_with_the_first_failure<E>(replies: Seq<Reply<E>>)
    requires
        is_history(replies),
    ensures
        match stage_after(replies) {
            Stage::Deregister { failure } => failure == first_failure(replies),
            Stage::Closed { failure } => failure == first_failure(replies),
            _ => first_failure(replies) is None,
        },
    decreases replies.len(),
{
    if replies.len() > 0 {
        law_sessions_end_with_the_first_failure(replies.drop_last());
    }
}

/// A failure while snapshots or updates are written leads to the client's removal as
/// the next work, and the session then ends with its error.
pub proof fn law_failures_end_the_session<E>(replies: Seq<Reply<E>>, error: E)
    requires
        is_history(replies),
        replies.len() > 0,
        replies.last() == (Reply::Failed { error }),
    ensures
        stage_after(replies) == (Stage::Deregister { failure: Some(error) }),
        stage_after(replies.push(Reply::Done)) == (Stage::Closed { failure: Some(error) }),
{
    assert(replies.push(Reply::Done).drop_last() =~= replies);
}

} // verus!
