//! The event-loop state machine.
//!
//! One loop iteration consumes exactly one [`Input`]: a redraw tick, the
//! completion of the background task, or the interrupt signal.  The loop
//! answers with a [`Directive`] that tells the (unverified) driver what to do
//! to the program and the terminal.  All decisions are made here; the driver
//! only performs them.

use vstd::prelude::*;

verus! {

use tokio::sync::mpsc::UnboundedReceiver;
use tokio::sync::mpsc::UnboundedSender;

#[verifier::external_type_specification]
#[verifier::external_body]
#[verifier::reject_recursive_types(T)]
pub struct ExUnboundedSender<T>(UnboundedSender<T>);

#[verifier::external_type_specification]
#[verifier::external_body]
#[verifier::reject_recursive_types(T)]
pub struct ExUnboundedReceiver<T>(UnboundedReceiver<T>);

/// Relies on tokio's `mpsc::unbounded_channel`: makes a connected
/// many-producer, one-consumer queue with no capacity bound, so sends never
/// wait.
#[verifier::external_body]
fn new_unbounded<T>() -> (UnboundedSender<T>, UnboundedReceiver<T>) {
    tokio::sync::mpsc::unbounded_channel()
}

/// Relies on tokio's `UnboundedSender::send`: never blocks, and fails only
/// when the receive side is gone, handing the value back.
#[verifier::external_body]
fn send_on<T>(sender: &UnboundedSender<T>, value: T) -> (r: Result<(), T>)
    ensures
        r matches Err(v) ==> v == value,
{
    match sender.send(value) {
        Ok(()) => Ok(()),
        Err(e) => Err(e.0),
    }
}

/// Relies on tokio's `Clone for UnboundedSender`: the clone feeds the same
/// queue as the sender it was made from.
#[verifier::external_body]
fn clone_sender<T>(sender: &UnboundedSender<T>) -> UnboundedSender<T> {
    sender.clone()
}

/// Relies on tokio's `UnboundedReceiver::try_recv`: hands out the next
/// queued value without waiting, or nothing when none is ready right now.
#[verifier::external_body]
fn try_recv_now<T>(receiver: &mut UnboundedReceiver<T>) -> Option<T> {
    receiver.try_recv().ok()
}

/// Relies on tokio's `UnboundedReceiver::len`: how many values are queued
/// at this moment.
#[verifier::external_body]
fn queued_now<T>(receiver: &UnboundedReceiver<T>) -> usize {
    receiver.len()
}

/// An event carried on the runtime's channel: either an opaque message for
/// the program, or free-form text to print above the live viewport.
pub enum Event<Message> {
    Message(Message),
    Print(String),
}

/// The messages among `events`, in channel order, with the print requests
/// left out.
pub open spec fn messages_of<M>(events: Seq<Event<M>>) -> Seq<M>
    decreases events.len(),
{
    if events.len() == 0 {
        Seq::empty()
    } else {
        match events[0] {
            Event::Message(m) => seq![m] + messages_of(events.skip(1)),
            Event::Print(_) => messages_of(events.skip(1)),
        }
    }
}

/// The print requests among `events`, in channel order, with the messages
/// left out.
pub open spec fn prints_of<M>(events: Seq<Event<M>>) -> Seq<Seq<char>>
    decreases events.len(),
{
    if events.len() == 0 {
        Seq::empty()
    } else {
        match events[0] {
            Event::Message(_) => prints_of(events.skip(1)),
            Event::Print(content) => seq![content@] + prints_of(events.skip(1)),
        }
    }
}

/// Index of the first line feed in `s`, or `s.len()` if there is none.
pub open spec fn first_newline(s: Seq<char>) -> nat
    decreases s.len(),
{
    if s.len() == 0 {
        0
    } else if s[0] == '\n' {
        0
    } else {
        1 + first_newline(s.skip(1))
    }
}

/// One carriage return is dropped from the end of a line, so that `\r\n`
/// line endings split like plain `\n` ones.
pub open spec fn carriage_trimmed(line: Seq<char>) -> Seq<char> {
    if line.len() > 0 && line.last() == '\r' {
        line.drop_last()
    } else {
        line
    }
}

/// The lines of `s`, as `str::lines` yields them: split at `\n` or `\r\n`,
/// with a final line ending optional.
pub open spec fn split_lines_spec(s: Seq<char>) -> Seq<Seq<char>>
    decreases s.len(),
{
    if s.len() == 0 {
        Seq::empty()
    } else {
        let i = first_newline(s);
        if i >= s.len() {
            seq![s]
        } else {
            seq![carriage_trimmed(s.take(i as int))] + split_lines_spec(s.skip(i as int + 1))
        }
    }
}

/// With no line feed in `pre`, the first line feed of `pre + post` lies in
/// `post`.
proof fn lemma_first_newline_concat(pre: Seq<char>, post: Seq<char>)
    requires
        forall|j: int| 0 <= j < pre.len() ==> pre[j] != '\n',
    ensures
        first_newline(pre + post) == pre.len() + first_newline(post),
    decreases pre.len(),
{
    if pre.len() == 0 {
        assert(pre + post =~= post);
    } else {
        assert((pre + post)[0] == pre[0]);
        assert((pre + post).skip(1) =~= pre.skip(1) + post);
        lemma_first_newline_concat(pre.skip(1), post);
    }
}

/// Splitting a text whose head line is explicitly terminated yields that
/// line (trimmed of a carriage return) and then the split of the rest.
proof fn lemma_split_lines_step(line: Seq<char>, rest: Seq<char>)
    requires
        forall|j: int| 0 <= j < line.len() ==> line[j] != '\n',
    ensures
        split_lines_spec(line + seq!['\n'] + rest) == seq![carriage_trimmed(line)]
            + split_lines_spec(rest),
{
    let whole = line + seq!['\n'] + rest;
    lemma_first_newline_concat(line, seq!['\n'] + rest);
    assert(line + seq!['\n'] + rest =~= line + (seq!['\n'] + rest));
    assert(first_newline(seq!['\n'] + rest) == 0);
    assert(first_newline(whole) == line.len());
    assert(whole.len() > line.len());
    assert(whole.take(line.len() as int) =~= line);
    assert(whole.skip(line.len() as int + 1) =~= rest);
}

/// A text without any line feed is one line (or none, if it is empty).
proof fn lemma_split_lines_whole(line: Seq<char>)
    requires
        forall|j: int| 0 <= j < line.len() ==> line[j] != '\n',
        line.len() > 0,
    ensures
        split_lines_spec(line) == seq![line],
{
    lemma_first_newline_concat(line, Seq::empty());
    assert(line + Seq::<char>::empty() =~= line);
}

/// Splits text into its lines, as `str::lines` does: at each `\n` or
/// `\r\n`, with a final line ending optional.
pub fn split_lines(s: &str) -> (r: Vec<String>)
    ensures
        r@.map_values(|l: String| l@) == split_lines_spec(s@),
{
    let n = s.unicode_len();
    let mut r: Vec<String> = Vec::new();
    let mut start: usize = 0;
    let mut i: usize = 0;
    proof {
        assert(s@.skip(0) =~= s@);
        assert(r@.map_values(|l: String| l@) + split_lines_spec(s@) =~= split_lines_spec(s@));
    }
    while i < n
        invariant
            n == s@.len(),
            0 <= start <= i <= n,
            forall|j: int| start <= j < i ==> s@[j] != '\n',
            r@.map_values(|l: String| l@) + split_lines_spec(s@.skip(start as int))
                == split_lines_spec(s@),
        decreases n - i,
    {
        let c = s.get_char(i);
        if c == '\n' {
            let end = if i > start && s.get_char(i - 1) == '\r' {
                i - 1
            } else {
                i
            };
            let line = s.substring_char(start, end).to_owned();
            proof {
                let ghost cur = s@.subrange(start as int, i as int);
                assert(s@.skip(start as int) =~= cur + seq!['\n'] + s@.skip(i as int + 1));
                lemma_split_lines_step(cur, s@.skip(i as int + 1));
                assert(line@ =~= carriage_trimmed(cur));
                assert(r@.push(line).map_values(|l: String| l@) =~= r@.map_values(
                    |l: String| l@,
                ).push(line@));
                assert(r@.map_values(|l: String| l@).push(carriage_trimmed(cur))
                    + split_lines_spec(s@.skip(i as int + 1)) =~= r@.map_values(|l: String| l@)
                    + split_lines_spec(s@.skip(start as int)));
            }
            r.push(line);
            start = i + 1;
        }
        i = i + 1;
    }
    if start < n {
        let line = s.substring_char(start, n).to_owned();
        proof {
            let ghost cur = s@.skip(start as int);
            lemma_split_lines_whole(cur);
            assert(line@ =~= cur);
            assert(r@.push(line).map_values(|l: String| l@) =~= r@.map_values(
                |l: String| l@,
            ).push(line@));
        }
        r.push(line);
    } else {
        proof {
            assert(s@.skip(start as int) =~= Seq::<char>::empty());
            assert(r@.map_values(|l: String| l@) + split_lines_spec(Seq::<char>::empty())
                =~= r@.map_values(|l: String| l@));
        }
    }
    r
}

/// The scrollback block one tick produces: the lines of every print request
/// among `events`, in channel order.
pub open spec fn scrollback_of<M>(events: Seq<Event<M>>) -> Seq<Seq<char>>
    decreases events.len(),
{
    if events.len() == 0 {
        Seq::empty()
    } else {
        match events[0] {
            Event::Message(_) => scrollback_of(events.skip(1)),
            Event::Print(content) => split_lines_spec(content@) + scrollback_of(events.skip(1)),
        }
    }
}

/// What one redraw tick asks of the driver: apply `updates` to the program
/// in order, insert `scrollback` above the viewport if it is non-empty, and
/// then draw exactly one frame.
pub struct RenderPlan<Message> {
    pub updates: Vec<Message>,
    pub scrollback: Vec<String>,
}

/// Turns the events drained on one tick into that tick's render plan:
/// every message becomes a program update, in channel order, and every
/// print request contributes its lines to one scrollback block.
pub fn process_tick<Message>(events: Vec<Event<Message>>) -> (r: RenderPlan<Message>)
    ensures
        r.updates@ == messages_of(events@),
        r.scrollback@.map_values(|l: String| l@) == scrollback_of(events@),
{
    let ghost all = events@;
    let mut updates: Vec<Message> = Vec::new();
    let mut scrollback: Vec<String> = Vec::new();
    let mut rest = events;
    proof {
        assert(updates@ + messages_of(all) =~= messages_of(all));
        assert(scrollback@.map_values(|l: String| l@) + scrollback_of(all) =~= scrollback_of(
            all,
        ));
    }
    while rest.len() > 0
        invariant
            updates@ + messages_of(rest@) == messages_of(all),
            scrollback@.map_values(|l: String| l@) + scrollback_of(rest@) == scrollback_of(all),
        decreases rest@.len(),
    {
        let ghost before = rest@;
        let e = rest.remove(0);
        proof {
            assert(before =~= seq![e] + rest@);
            assert((seq![e] + rest@)[0] == e);
            assert((seq![e] + rest@).skip(1) =~= rest@);
        }
        match e {
            Event::Message(m) => {
                proof {
                    assert(messages_of(before) =~= seq![m] + messages_of(rest@));
                    assert(updates@.push(m) + messages_of(rest@) =~= updates@ + messages_of(
                        before,
                    ));
                }
                updates.push(m);
            },
            Event::Print(content) => {
                let mut lines = split_lines(content.as_str());
                proof {
                    assert(scrollback_of(before) =~= split_lines_spec(content@) + scrollback_of(
                        rest@,
                    ));
                    assert((scrollback@ + lines@).map_values(|l: String| l@) =~= scrollback@
                        .map_values(|l: String| l@) + lines@.map_values(|l: String| l@));
                    assert(scrollback@.map_values(|l: String| l@) + lines@.map_values(
                        |l: String| l@,
                    ) + scrollback_of(rest@) =~= scrollback@.map_values(|l: String| l@)
                        + scrollback_of(before));
                }
                scrollback.append(&mut lines);
            },
        }
    }
    proof {
        assert(rest@ =~= Seq::<Event<Message>>::empty());
        assert(updates@ + messages_of(rest@) =~= updates@);
        assert(scrollback@.map_values(|l: String| l@) + scrollback_of(rest@) =~= scrollback@
            .map_values(|l: String| l@));
    }
    RenderPlan { updates, scrollback }
}

proof fn lemma_messages_of_push<M>(s: Seq<Event<M>>, e: Event<M>)
    ensures
        messages_of(s.push(e)) == (match e {
            Event::Message(m) => messages_of(s).push(m),
            Event::Print(_) => messages_of(s),
        }),
    decreases s.len(),
{
    if s.len() == 0 {
        assert(s.push(e)[0] == e);
        assert(s.push(e).skip(1) =~= Seq::<Event<M>>::empty());
        match e {
            Event::Message(m) => {
                assert(messages_of(s.push(e)) =~= seq![m] + messages_of(s.push(e).skip(1)));
                assert(seq![m] + messages_of(Seq::<Event<M>>::empty()) =~= messages_of(
                    s,
                ).push(m));
            },
            Event::Print(_) => {
                assert(messages_of(s.push(e)) =~= messages_of(s.push(e).skip(1)));
            },
        }
    } else {
        assert(s.push(e)[0] == s[0]);
        assert(s.push(e).skip(1) =~= s.skip(1).push(e));
        lemma_messages_of_push(s.skip(1), e);
        match s[0] {
            Event::Message(m0) => {
                match e {
                    Event::Message(m) => {
                        assert(seq![m0] + messages_of(s.skip(1)).push(m) =~= (seq![m0]
                            + messages_of(s.skip(1))).push(m));
                    },
                    Event::Print(_) => {},
                }
            },
            Event::Print(_) => {},
        }
    }
}

/// Law: a tick's program updates are exactly the drained messages, kept in
/// send order, with the print requests filtered out.
pub proof fn lemma_updates_are_messages_in_order<M>(events: Seq<Event<M>>)
    ensures
        messages_of(events) == events.filter(|e: Event<M>| e is Message).map_values(
            |e: Event<M>| e->Message_0,
        ),
    decreases events.len(),
{
    broadcast use Seq::lemma_filter_push;

    let pred = |e: Event<M>| e is Message;
    let payload = |e: Event<M>| e->Message_0;
    if events.len() == 0 {
        reveal(Seq::filter);
        assert(events.filter(pred).map_values(payload) =~= Seq::<M>::empty());
    } else {
        let prefix = events.drop_last();
        let last = events.last();
        lemma_updates_are_messages_in_order(prefix);
        lemma_messages_of_push(prefix, last);
        assert(events =~= prefix.push(last));
        if pred(last) {
            assert(events.filter(pred) == prefix.filter(pred).push(last));
            assert(prefix.filter(pred).push(last).map_values(payload) =~= prefix.filter(
                pred,
            ).map_values(payload).push(payload(last)));
        } else {
            assert(events.filter(pred) == prefix.filter(pred));
        }
    }
}

/// Law: a tick loses and duplicates nothing: every drained event becomes
/// either one program update or one print block, and the counts add up.
pub proof fn lemma_tick_is_lossless<M>(events: Seq<Event<M>>)
    ensures
        messages_of(events).len() + prints_of(events).len() == events.len(),
    decreases events.len(),
{
    if events.len() == 0 {
    } else {
        lemma_tick_is_lossless(events.skip(1));
    }
}

/// Law: the scrollback block of a tick is exactly each print request split
/// into its lines, concatenated in channel order.
pub proof fn lemma_scrollback_is_split_prints<M>(events: Seq<Event<M>>)
    ensures
        scrollback_of(events) == prints_of(events).map_values(
            |c: Seq<char>| split_lines_spec(c),
        ).flatten(),
    decreases events.len(),
{
    let split = |c: Seq<char>| split_lines_spec(c);
    if events.len() == 0 {
        assert(prints_of(events).map_values(split) =~= Seq::<Seq<Seq<char>>>::empty());
    } else {
        lemma_scrollback_is_split_prints(events.skip(1));
        match events[0] {
            Event::Message(_) => {},
            Event::Print(content) => {
                let rest = prints_of(events.skip(1));
                assert(prints_of(events) =~= seq![content@] + rest);
                let mapped = (seq![content@] + rest).map_values(split);
                assert(mapped =~= seq![split_lines_spec(content@)] + rest.map_values(split));
                assert(mapped.len() > 0);
                assert(mapped.first() == split_lines_spec(content@));
                assert(mapped.drop_first() =~= rest.map_values(split));
            },
        }
    }
}

/// Shareable capability for feeding a running loop: any number of clones
/// may enqueue messages and print requests concurrently.  Sends never
/// block, and a send after the loop has stopped receiving is silently
/// dropped — the run may already be finishing, which is not the producer's
/// error.
#[verifier::reject_recursive_types(Message)]
pub struct Handle<Message> {
    sender: UnboundedSender<Event<Message>>,
}

impl<Message> Clone for Handle<Message> {
    fn clone(&self) -> Self {
        Handle { sender: clone_sender(&self.sender) }
    }
}

impl<Message> Handle<Message> {
    /// Enqueues text to be printed above the live viewport on the next
    /// tick.  Fire-and-forget.
    pub fn print(&mut self, content: String) {
        let _ = send_on(&self.sender, Event::Print(content));
    }

    /// Enqueues a message for the program.  Fire-and-forget.
    pub fn update(&mut self, message: Message) {
        let _ = send_on(&self.sender, Event::Message(message));
    }
}

/// Creates the event channel: a handle for the producers, and the receive
/// side that the loop alone drains.
pub fn channel<Message>() -> (Handle<Message>, UnboundedReceiver<Event<Message>>) {
    let (sender, receiver) = new_unbounded();
    (Handle { sender }, receiver)
}

/// Drains everything currently queued, never waiting for more.  What comes
/// out depends on the producers, so nothing is promised of the contents;
/// [`process_tick`] says exactly what one tick then does with them.
pub fn drain<Message>(receiver: &mut UnboundedReceiver<Event<Message>>) -> Vec<Event<Message>> {
    let available = queued_now(receiver);
    let mut events: Vec<Event<Message>> = Vec::new();
    let mut taken: usize = 0;
    while taken < available
        decreases available - taken,
    {
        match try_recv_now(receiver) {
            Some(e) => {
                events.push(e);
            },
            None => {
                return events;
            },
        }
        taken = taken + 1;
    }
    events
}

/// The phase the loop is in.  Input is dispatched only while `Running`;
/// `Finishing` and `Terminating` are absorbing.
#[derive(Clone, Copy, Debug, PartialEq, Eq, Structural)]
pub enum LoopState {
    Running,
    Finishing,
    Terminating,
}

/// How the background task ended: with its value, or with a failure of the
/// task itself or of the machinery that ran it.
pub enum TaskStatus<T> {
    Completed(T),
    Failed,
}

/// A failure of the whole run, surfaced to the loop's caller.
#[derive(Clone, Copy, Debug, PartialEq, Eq, Structural)]
pub enum LoopError {
    TaskFailed,
}

/// One loop iteration's input, from whichever of the three sources was
/// ready first: a redraw tick carrying the events drained from the channel,
/// the background task's completion, or the interrupt signal.
pub enum Input<Message, T> {
    Render(Vec<Event<Message>>),
    Finished(TaskStatus<T>),
    Term,
}

/// What the driver must do for one input.
///
/// - `Redraw(plan)`: apply the plan's updates in order, insert its
///   scrollback block above the viewport if non-empty, draw one frame.
/// - `Finish(Ok(v))`: show the cursor, clear the viewport, return `v` to
///   the loop's caller.
/// - `Finish(Err(e))`: show the cursor and clear the viewport
///   (best-effort), then propagate `e` to the loop's caller.
/// - `Exit`: show the cursor, clear the viewport, end the process with a
///   success status.
pub enum Directive<Message, T> {
    Redraw(RenderPlan<Message>),
    Finish(Result<T, LoopError>),
    Exit,
}

/// Only a running loop dispatches input.
pub open spec fn accepts_input(s: LoopState) -> bool {
    s is Running
}

/// The loop's sole state transition: one input in, one directive out.
///
/// A tick always yields exactly one redraw, however many events it drained
/// (including none); completion ends the loop with the task's result or its
/// failure; the interrupt ends the process.
pub fn dispatch<Message, T>(state: LoopState, input: Input<Message, T>) -> (r: (
    LoopState,
    Directive<Message, T>,
))
    requires
        accepts_input(state),
    ensures
        (input matches Input::Render(events) ==> r.0 is Running && (
        r.1 matches Directive::Redraw(plan) && plan.updates@ == messages_of(events@)
            && plan.scrollback@.map_values(|l: String| l@) == scrollback_of(events@))),
        (input matches Input::Finished(TaskStatus::Completed(v)) ==> r.0 is Finishing && r.1
            == Directive::<Message, T>::Finish(Ok(v))),
        (input matches Input::Finished(TaskStatus::Failed) ==> r.0 is Finishing && r.1
            == Directive::<Message, T>::Finish(Err(LoopError::TaskFailed))),
        (input is Term ==> r.0 is Terminating && r.1 is Exit),
{
    match input {
        Input::Render(events) => (LoopState::Running, Directive::Redraw(process_tick(events))),
        Input::Finished(TaskStatus::Completed(v)) => (
            LoopState::Finishing,
            Directive::Finish(Ok(v)),
        ),
        Input::Finished(TaskStatus::Failed) => (
            LoopState::Finishing,
            Directive::Finish(Err(LoopError::TaskFailed)),
        ),
        Input::Term => (LoopState::Terminating, Directive::Exit),
    }
}

/// The terminal as the loop affects it: the scrollback persisted above the
/// viewport, whether the cursor is shown, and whether the inline region has
/// been cleared.
pub struct TerminalModel {
    pub scrollback: Seq<Seq<char>>,
    pub cursor_shown: bool,
    pub cleared: bool,
}

/// How performing one directive changes the terminal.  A redraw appends its
/// scrollback block and paints the viewport; every ending — a successful
/// finish, a propagated failure, and the interrupt exit — shows the cursor
/// and clears the region before the run's result surfaces.
pub open spec fn applied<M, T>(t: TerminalModel, d: Directive<M, T>) -> TerminalModel {
    match d {
        Directive::Redraw(plan) => TerminalModel {
            scrollback: t.scrollback + plan.scrollback@.map_values(|l: String| l@),
            cursor_shown: t.cursor_shown,
            cleared: false,
        },
        Directive::Finish(_) => TerminalModel {
            scrollback: t.scrollback,
            cursor_shown: true,
            cleared: true,
        },
        Directive::Exit => TerminalModel {
            scrollback: t.scrollback,
            cursor_shown: true,
            cleared: true,
        },
    }
}

/// Law: scrollback, once printed, persists: no later directive — redraws
/// included — disturbs what already stands above the viewport.
pub proof fn lemma_scrollback_persists<M, T>(t: TerminalModel, d: Directive<M, T>)
    ensures
        applied(t, d).scrollback.take(t.scrollback.len() as int) == t.scrollback,
        applied(t, d).scrollback.len() >= t.scrollback.len(),
{
    match d {
        Directive::Redraw(plan) => {
            assert((t.scrollback + plan.scrollback@.map_values(|l: String| l@)).take(
                t.scrollback.len() as int,
            ) =~= t.scrollback);
        },
        Directive::Finish(_) => {
            assert(applied(t, d).scrollback.take(t.scrollback.len() as int) =~= t.scrollback);
        },
        Directive::Exit => {
            assert(applied(t, d).scrollback.take(t.scrollback.len() as int) =~= t.scrollback);
        },
    }
}

/// Law: every way the run can end — a successful finish, a propagated
/// failure, and the interrupt — leaves the cursor shown and the viewport
/// cleared, whatever the terminal held.
pub proof fn lemma_exits_restore_terminal<M, T>(t: TerminalModel, d: Directive<M, T>)
    requires
        d is Exit || d is Finish,
    ensures
        applied(t, d).cursor_shown,
        applied(t, d).cleared,
{
}

/// What a whole run hands back, given the ordered sequence of inputs the
/// loop observes.
#[derive(Debug, PartialEq, Eq)]
pub enum RunOutcome<T> {
    Pending,
    Returned(T),
    Failed,
    Exited,
}

/// The run's outcome: ticks are absorbed, and the first completion or
/// interrupt decides.
pub open spec fn outcome_of<M, T>(inputs: Seq<Input<M, T>>) -> RunOutcome<T>
    decreases inputs.len(),
{
    if inputs.len() == 0 {
        RunOutcome::Pending
    } else {
        match inputs[0] {
            Input::Render(_) => outcome_of(inputs.skip(1)),
            Input::Finished(TaskStatus::Completed(v)) => RunOutcome::Returned(v),
            Input::Finished(TaskStatus::Failed) => RunOutcome::Failed,
            Input::Term => RunOutcome::Exited,
        }
    }
}

/// The decision half of a whole run: folds [`dispatch`] over the inputs in
/// order, leaving every effect to the driver.  Processing stops at the
/// first input that ends the run; later inputs are never examined, and the
/// result is exactly the run's outcome.
#[verifier::loop_isolation(false)]
pub fn drive<Message, T>(inputs: Vec<Input<Message, T>>) -> (r: RunOutcome<T>)
    ensures
        r == outcome_of(inputs@),
{
    let ghost all = inputs@;
    let mut state = LoopState::Running;
    let mut rest = inputs;
    while rest.len() > 0
        invariant
            accepts_input(state),
            outcome_of(all) == outcome_of(rest@),
        decreases rest@.len(),
    {
        let ghost before = rest@;
        let input = rest.remove(0);
        let ghost ginput = input;
        proof {
            assert(before =~= seq![input] + rest@);
            assert((seq![input] + rest@)[0] == input);
            assert((seq![input] + rest@).skip(1) =~= rest@);
        }
        let (next, directive) = dispatch(state, input);
        state = next;
        match directive {
            Directive::Redraw(_) => {},
            Directive::Finish(result) => {
                match result {
                    Ok(v) => {
                        proof {
                            if ginput is Render {
                                assert(false);
                            }
                            if ginput is Term {
                                assert(false);
                            }
                            if ginput matches Input::Finished(TaskStatus::Failed) {
                                assert(false);
                            }
                            assert(outcome_of(before) == RunOutcome::<T>::Returned(v));
                        }
                        return RunOutcome::Returned(v);
                    },
                    Err(_) => {
                        proof {
                            if ginput is Render {
                                assert(false);
                            }
                            if ginput is Term {
                                assert(false);
                            }
                            if ginput matches Input::Finished(TaskStatus::Completed(_)) {
                                assert(false);
                            }
                            assert(outcome_of(before) == RunOutcome::<T>::Failed);
                        }
                        return RunOutcome::Failed;
                    },
                }
            },
            Directive::Exit => {
                proof {
                    if ginput is Render {
                        assert(false);
                    }
                    if ginput matches Input::Finished(TaskStatus::Completed(_)) {
                        assert(false);
                    }
                    if ginput matches Input::Finished(TaskStatus::Failed) {
                        assert(false);
                    }
                    assert(outcome_of(before) == RunOutcome::<T>::Exited);
                }
                return RunOutcome::Exited;
            },
        }
    }
    RunOutcome::Pending
}

/// Law: once the run's outcome is decided, inputs that arrive later can
/// never change it — nothing is processed after the loop leaves `Running`.
pub proof fn lemma_outcome_ignores_later_inputs<M, T>(pre: Seq<Input<M, T>>, post: Seq<
    Input<M, T>,
>)
    requires
        !(outcome_of(pre) is Pending),
    ensures
        outcome_of(pre + post) == outcome_of(pre),
    decreases pre.len(),
{
    assert(pre.len() > 0);
    assert((pre + post)[0] == pre[0]);
    match pre[0] {
        Input::Render(_) => {
            assert((pre + post).skip(1) =~= pre.skip(1) + post);
            lemma_outcome_ignores_later_inputs(pre.skip(1), post);
        },
        _ => {},
    }
}

/// Law: after any number of ticks, a successful completion returns exactly
/// the background task's value to the caller, whatever comes after.
pub proof fn lemma_finished_returns_value<M, T>(
    ticks: Seq<Input<M, T>>,
    v: T,
    later: Seq<Input<M, T>>,
)
    requires
        forall|j: int| 0 <= j < ticks.len() ==> ticks[j] is Render,
    ensures
        outcome_of(ticks + seq![Input::<M, T>::Finished(TaskStatus::Completed(v))] + later)
            == RunOutcome::<T>::Returned(v),
    decreases ticks.len(),
{
    let whole = ticks + seq![Input::<M, T>::Finished(TaskStatus::Completed(v))] + later;
    if ticks.len() == 0 {
        assert(whole[0] == Input::<M, T>::Finished(TaskStatus::Completed(v)));
    } else {
        assert(whole[0] == ticks[0]);
        assert(whole.skip(1) =~= ticks.skip(1) + seq![
            Input::<M, T>::Finished(TaskStatus::Completed(v)),
        ] + later);
        lemma_finished_returns_value(ticks.skip(1), v, later);
    }
}

/// Law: after any number of ticks, a failed completion surfaces as a
/// failure to the caller, never as a value.
pub proof fn lemma_failure_propagates<M, T>(ticks: Seq<Input<M, T>>, later: Seq<Input<M, T>>)
    requires
        forall|j: int| 0 <= j < ticks.len() ==> ticks[j] is Render,
    ensures
        outcome_of(ticks + seq![Input::<M, T>::Finished(TaskStatus::Failed)] + later)
            == RunOutcome::<T>::Failed,
    decreases ticks.len(),
{
    let whole = ticks + seq![Input::<M, T>::Finished(TaskStatus::Failed)] + later;
    if ticks.len() == 0 {
        assert(whole[0] == Input::<M, T>::Finished(TaskStatus::Failed));
    } else {
        assert(whole[0] == ticks[0]);
        assert(whole.skip(1) =~= ticks.skip(1) + seq![
            Input::<M, T>::Finished(TaskStatus::Failed),
        ] + later);
        lemma_failure_propagates(ticks.skip(1), later);
    }
}

/// Law: an interrupt observed at any point while the loop still runs — at
/// the start, between ticks, even with a completion already queued behind
/// it — ends the process, and nothing queued after it is processed.
pub proof fn lemma_interrupt_always_exits<M, T>(ticks: Seq<Input<M, T>>, later: Seq<Input<M, T>>)
    requires
        forall|j: int| 0 <= j < ticks.len() ==> ticks[j] is Render,
    ensures
        outcome_of(ticks + seq![Input::<M, T>::Term] + later) == RunOutcome::<T>::Exited,
    decreases ticks.len(),
{
    let whole = ticks + seq![Input::<M, T>::Term] + later;
    if ticks.len() == 0 {
        assert(whole[0] == Input::<M, T>::Term);
    } else {
        assert(whole[0] == ticks[0]);
        assert(whole.skip(1) =~= ticks.skip(1) + seq![Input::<M, T>::Term] + later);
        lemma_interrupt_always_exits(ticks.skip(1), later);
    }
}

} // verus!
