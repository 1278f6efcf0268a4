//! What a run of the program tells, and the window that shows the end of it.
use std::collections::VecDeque;
use vstd::prelude::*;
use vstd::string::*;

verus! {

/// The most messages that a window keeps.
pub const WINDOW: usize = 250;

/// Something that happened while the program worked.
#[derive(Clone, Debug)]
pub enum LogEvent {
    /// A message.
    Msg(String),
    /// The line at a place has a new status.
    StatusChange(usize, i32),
    /// So many of all are settled.
    Progress { done: usize, total: usize },
}

/// Something that happened, with its message as characters.
pub enum FeedModel {
    Msg(Seq<char>),
    StatusChange(usize, i32),
    Progress { done: usize, total: usize },
}

impl View for LogEvent {
    type V = FeedModel;

    open spec fn view(&self) -> FeedModel {
        match self {
            LogEvent::Msg(m) => FeedModel::Msg(m@),
            LogEvent::StatusChange(at, status) => FeedModel::StatusChange(*at, *status),
            LogEvent::Progress { done, total } => FeedModel::Progress {
                done: *done,
                total: *total,
            },
        }
    }
}

/// The views of a list of events.
pub open spec fn feed(v: Seq<LogEvent>) -> Seq<FeedModel> {
    v.map_values(|e: LogEvent| e@)
}

/// What a logger does with something it is told.
#[derive(Debug)]
pub enum Dispatch {
    /// Send these, in order.
    Send(Vec<LogEvent>),
    /// Print this line.
    Print(String),
    /// Nothing.
    Drop,
}

/// What a logger does, with its texts as characters.
pub enum DispatchModel {
    Send(Seq<FeedModel>),
    Print(Seq<char>),
    Drop,
}

impl View for Dispatch {
    type V = DispatchModel;

    open spec fn view(&self) -> DispatchModel {
        match self {
            Dispatch::Send(events) => DispatchModel::Send(feed(events@)),
            Dispatch::Print(line) => DispatchModel::Print(line@),
            Dispatch::Drop => DispatchModel::Drop,
        }
    }
}

/// A logger: one that a window listens to, or one that prints.
#[derive(Clone, Copy, Debug)]
pub struct UiLogger {
    /// Whether a window listens.
    pub connected: bool,
}

fn message_line(msg: &str) -> (r: LogEvent)
    ensures
        r@ == FeedModel::Msg(msg@ + "\n"@),
{
    let mut line = msg.to_owned();
    line.append("\n");
    LogEvent::Msg(line)
}

impl UiLogger {
    /// What is done with a message.
    pub open spec fn logs(&self, msg: Seq<char>) -> DispatchModel {
        if self.connected {
            DispatchModel::Send(seq![FeedModel::Msg(msg + "\n"@)])
        } else {
            DispatchModel::Print(msg)
        }
    }

    /// What is done with a message about a line and its new status.
    pub open spec fn tells(&self, msg: Seq<char>, index: usize, status: i32) -> DispatchModel {
        if self.connected {
            DispatchModel::Send(
                seq![FeedModel::Msg(msg + "\n"@), FeedModel::StatusChange(index, status)],
            )
        } else {
            DispatchModel::Print(msg)
        }
    }

    /// What is done with word of how far the work has come.
    pub open spec fn reports(&self, done: usize, total: usize) -> DispatchModel {
        if self.connected {
            DispatchModel::Send(seq![FeedModel::Progress { done, total }])
        } else {
            DispatchModel::Drop
        }
    }

    /// A message: sent as a line where a window listens, else printed.
    pub fn log(&self, msg: &str) -> (r: Dispatch)
        ensures
            r@ == self.logs(msg@),
    {
        if self.connected {
            let mut events: Vec<LogEvent> = Vec::new();
            events.push(message_line(msg));
            assert(feed(events@) =~= seq![FeedModel::Msg(msg@ + "\n"@)]);
            Dispatch::Send(events)
        } else {
            Dispatch::Print(msg.to_owned())
        }
    }

    /// A message about the line at place `index`, which now has `status`: sent
    /// with the change where a window listens, else printed.
    pub fn status(&self, msg: &str, index: usize, status: i32) -> (r: Dispatch)
        ensures
            r@ == self.tells(msg@, index, status),
    {
        if self.connected {
            let mut events: Vec<LogEvent> = Vec::new();
            events.push(message_line(msg));
            events.push(LogEvent::StatusChange(index, status));
            assert(feed(events@) =~= seq![
                FeedModel::Msg(msg@ + "\n"@),
                FeedModel::StatusChange(index, status),
            ]);
            Dispatch::Send(events)
        } else {
            Dispatch::Print(msg.to_owned())
        }
    }

    /// How far the work has come: sent where a window listens, else dropped.
    pub fn progress(&self, done: usize, total: usize) -> (r: Dispatch)
        ensures
            r@ == self.reports(done, total),
    {
        if self.connected {
            let mut events: Vec<LogEvent> = Vec::new();
            events.push(LogEvent::Progress { done, total });
            assert(feed(events@) =~= seq![FeedModel::Progress { done, total }]);
            Dispatch::Send(events)
        } else {
            Dispatch::Drop
        }
    }
}

/// The messages among a list of events, in order.
pub open spec fn messages(events: Seq<FeedModel>) -> Seq<Seq<char>>
    decreases events.len(),
{
    if events.len() == 0 {
        Seq::empty()
    } else {
        let before = messages(events.drop_last());
        match events.last() {
            FeedModel::Msg(m) => before.push(m),
            _ => before,
        }
    }
}

/// The changes of status among a list of events, in order.
pub open spec fn changes(events: Seq<FeedModel>) -> Seq<(usize, i32)>
    decreases events.len(),
{
    if events.len() == 0 {
        Seq::empty()
    } else {
        let before = changes(events.drop_last());
        match events.last() {
            FeedModel::StatusChange(at, status) => before.push((at, status)),
            _ => before,
        }
    }
}

/// The last word on progress among a list of events, where there is one.
pub open spec fn last_progress(events: Seq<FeedModel>) -> Option<(usize, usize)>
    decreases events.len(),
{
    if events.len() == 0 {
        None
    } else {
        match events.last() {
            FeedModel::Progress { done, total } => Some((done, total)),
            _ => last_progress(events.drop_last()),
        }
    }
}

/// The end of a list of messages: as many as a window keeps.
pub open spec fn tail(m: Seq<Seq<char>>) -> Seq<Seq<char>> {
    if m.len() > WINDOW {
        m.skip(m.len() - WINDOW)
    } else {
        m
    }
}

/// Texts one after another.
pub open spec fn joined(m: Seq<Seq<char>>) -> Seq<char>
    decreases m.len(),
{
    if m.len() == 0 {
        Seq::empty()
    } else {
        joined(m.drop_last()) + m.last()
    }
}

/// What a batch of events asks of the display, besides the text of the window.
#[derive(Debug)]
pub struct Digest {
    pub status_updates: Vec<(usize, i32)>,
    pub progress_update: Option<(usize, usize)>,
}

/// The window over the messages: it keeps the latest of them.
pub struct LogWindow {
    pub logs: VecDeque<String>,
}

impl View for LogWindow {
    type V = Seq<Seq<char>>;

    open spec fn view(&self) -> Seq<Seq<char>> {
        self.logs@.map_values(|s: String| s@)
    }
}

impl LogWindow {
    /// A window without messages.
    pub fn new() -> (r: LogWindow)
        ensures
            r@ == Seq::<Seq<char>>::empty(),
    {
        let r = LogWindow { logs: VecDeque::new() };
        assert(r@ =~= Seq::<Seq<char>>::empty());
        r
    }

    /// Takes in a batch of events: the messages are added and all but the
    /// latest dropped; the changes of status and the last word on progress are
    /// handed on.
    pub fn absorb(&mut self, events: &Vec<LogEvent>) -> (r: Digest)
        ensures
            final(self)@ == tail(old(self)@ + messages(feed(events@))),
            r.status_updates@ == changes(feed(events@)),
            r.progress_update == last_progress(feed(events@)),
    {
        let ghost was = self@;
        let ghost es = feed(events@);
        let mut status_updates: Vec<(usize, i32)> = Vec::new();
        let mut progress_update: Option<(usize, usize)> = None;
        let mut k: usize = 0;
        assert(es.take(0) == Seq::<FeedModel>::empty());
        assert(was + messages(es.take(0)) =~= was);
        while k < events.len()
            invariant
                es == feed(events@),
                k <= events@.len() == es.len(),
                self@ == was + messages(es.take(k as int)),
                status_updates@ == changes(es.take(k as int)),
                progress_update == last_progress(es.take(k as int)),
            decreases events@.len() - k,
        {
            let ghost before = self.logs@;
            proof {
                assert(es.take(k + 1).drop_last() == es.take(k as int));
                assert(es.take(k + 1).last() == events@[k as int]@);
            }
            match &events[k] {
                LogEvent::Msg(m) => {
                    let line = m.clone();
                    self.logs.push_back(line);
                    assert(self@ =~= before.map_values(|s: String| s@).push(line@));
                    assert(self@ =~= was + messages(es.take(k + 1)));
                },
                LogEvent::StatusChange(at, status) => {
                    status_updates.push((*at, *status));
                },
                LogEvent::Progress { done, total } => {
                    progress_update = Some((*done, *total));
                },
            }
            k += 1;
        }
        assert(es.take(es.len() as int) == es);
        let ghost all = self@;
        assert(all.skip(0) == all);
        let ghost mut gone: int = 0;
        while self.logs.len() > WINDOW
            invariant
                0 <= gone <= all.len(),
                self@ == all.skip(gone),
                gone > 0 ==> all.len() - gone >= WINDOW,
            decreases self.logs@.len(),
        {
            let ghost before = self.logs@;
            assert(self@.len() == before.len());
            let _ = self.logs.pop_front();
            proof {
                assert(self@ =~= before.map_values(|s: String| s@).skip(1));
                assert(all.skip(gone).skip(1) =~= all.skip(gone + 1));
                gone = gone + 1;
            }
        }
        assert(self@ =~= tail(all));
        Digest { status_updates, progress_update }
    }

    /// The text of the window.
    pub fn text(&self) -> (r: String)
        ensures
            r@ == joined(self@),
    {
        let mut out = String::new();
        let mut k: usize = 0;
        assert(self@.take(0) == Seq::<Seq<char>>::empty());
        while k < self.logs.len()
            invariant
                k <= self.logs@.len() == self@.len(),
                out@ == joined(self@.take(k as int)),
            decreases self.logs@.len() - k,
        {
            assert(self@.take(k + 1).drop_last() == self@.take(k as int));
            out.append(self.logs[k].as_str());
            k += 1;
        }
        assert(self@.take(self@.len() as int) == self@);
        out
    }
}

/// Taking in two batches is taking in both at once: the window shows the same,
/// and the changes and the last word on progress follow on.
pub proof fn law_batches_can_be_joined(
    window: Seq<Seq<char>>,
    x: Seq<FeedModel>,
    y: Seq<FeedModel>,
)
    ensures
        tail(tail(window + messages(x)) + messages(y)) == tail(window + messages(x + y)),
        changes(x + y) == changes(x) + changes(y),
        last_progress(x + y) == (if last_progress(y) is Some {
            last_progress(y)
        } else {
            last_progress(x)
        }),
{
    lemma_feed_joined(x, y);
    let a = window + messages(x);
    let b = messages(y);
    assert(window + (messages(x) + b) =~= a + b);
    assert(tail(tail(a) + b) =~= tail(a + b));
}

proof fn lemma_feed_joined(x: Seq<FeedModel>, y: Seq<FeedModel>)
    ensures
        messages(x + y) == messages(x) + messages(y),
        changes(x + y) == changes(x) + changes(y),
        last_progress(x + y) == (if last_progress(y) is Some {
            last_progress(y)
        } else {
            last_progress(x)
        }),
    decreases y.len(),
{
    if y.len() == 0 {
        assert(x + y =~= x);
        assert(messages(x) + messages(y) =~= messages(x));
        assert(changes(x) + changes(y) =~= changes(x));
    } else {
        lemma_feed_joined(x, y.drop_last());
        assert((x + y).drop_last() =~= x + y.drop_last());
        assert((x + y).last() == y.last());
        assert(messages(x + y) =~= messages(x) + messages(y));
        assert(changes(x + y) =~= changes(x) + changes(y));
    }
}

/// A window never shows more messages than it keeps.
pub proof fn law_window_is_bounded(m: Seq<Seq<char>>)
    ensures
        tail(m).len() <= WINDOW == 250,
        m.len() <= WINDOW ==> tail(m) == m,
        m.len() > WINDOW ==> tail(m).len() == WINDOW,
        forall|k: int|
            0 <= k < tail(m).len() ==> #[trigger] tail(m)[k] == m[m.len() - tail(m).len() + k],
{
}

/// One event is a message, a change of status or word of progress, and is taken
/// in as that alone; no event is nothing.
pub proof fn law_each_event_is_one_thing(e: FeedModel)
    ensures
        messages(Seq::empty()).len() == 0,
        changes(Seq::empty()).len() == 0,
        last_progress(Seq::empty()) is None,
        e matches FeedModel::Msg(m) ==> messages(seq![e]) == seq![m] && changes(seq![e]).len() == 0
            && last_progress(seq![e]) is None,
        e matches FeedModel::StatusChange(at, status) ==> changes(seq![e]) == seq![(at, status)]
            && messages(seq![e]).len() == 0 && last_progress(seq![e]) is None,
        e matches FeedModel::Progress { done, total } ==> last_progress(seq![e]) == Some(
            (done, total),
        ) && messages(seq![e]).len() == 0 && changes(seq![e]).len() == 0,
{
    let none = Seq::<FeedModel>::empty();
    assert(seq![e].drop_last() =~= none);
    assert(seq![e].last() == e);
    assert(messages(none) =~= Seq::<Seq<char>>::empty());
    assert(changes(none) =~= Seq::<(usize, i32)>::empty());
    match e {
        FeedModel::Msg(m) => {
            assert(messages(seq![e]) =~= seq![m]);
        },
        FeedModel::StatusChange(at, status) => {
            assert(changes(seq![e]) =~= seq![(at, status)]);
        },
        FeedModel::Progress { done, total } => {},
    }
}

/// The text of a window is its messages one after another, each as it is.
pub proof fn law_window_text_is_its_messages(x: Seq<Seq<char>>, y: Seq<Seq<char>>, m: Seq<char>)
    ensures
        joined(Seq::empty()).len() == 0,
        joined(seq![m]) == m,
        joined(x + y) == joined(x) + joined(y),
    decreases y.len(),
{
    assert(seq![m].drop_last() =~= Seq::<Seq<char>>::empty());
    assert(joined(Seq::empty()) + m =~= m);
    if y.len() == 0 {
        assert(x + y =~= x);
        assert(joined(x) + joined(y) =~= joined(x));
    } else {
        law_window_text_is_its_messages(x, y.drop_last(), m);
        assert((x + y).drop_last() =~= x + y.drop_last());
        assert((x + y).last() == y.last());
        assert(joined(x + y) =~= joined(x) + joined(y));
    }
}

/// A logger that a window listens to sends each message as a line of its own,
/// each status with its message, and word of progress by itself; one that
/// nobody listens to prints its messages and drops word of progress.
pub proof fn law_listeners_hear_what_is_said(
    logger: UiLogger,
    msg: Seq<char>,
    index: usize,
    status: i32,
    done: usize,
    total: usize,
)
    ensures
        logger.connected ==> {
            &&& logger.logs(msg) matches DispatchModel::Send(sent) && messages(sent) == seq![
                msg + "\n"@,
            ] && changes(sent).len() == 0 && last_progress(sent) is None
            &&& logger.tells(msg, index, status) matches DispatchModel::Send(sent) && messages(sent)
                == seq![msg + "\n"@] && changes(sent) == seq![(index, status)] && last_progress(
                sent,
            ) is None
            &&& logger.reports(done, total) matches DispatchModel::Send(sent) && last_progress(sent)
                == Some((done, total)) && messages(sent).len() == 0 && changes(sent).len() == 0
        },
        !logger.connected ==> {
            &&& logger.logs(msg) == DispatchModel::Print(msg)
            &&& logger.tells(msg, index, status) == DispatchModel::Print(msg)
            &&& logger.reports(done, total) == DispatchModel::Drop
        },
{
    let line = FeedModel::Msg(msg + "\n"@);
    let change = FeedModel::StatusChange(index, status);
    law_each_event_is_one_thing(line);
    law_each_event_is_one_thing(change);
    law_each_event_is_one_thing(FeedModel::Progress { done, total });
    lemma_feed_joined(seq![line], seq![change]);
    assert(seq![line] + seq![change] =~= seq![line, change]);
    assert(messages(seq![line]) + messages(seq![change]) =~= seq![msg + "\n"@]);
    assert(changes(seq![line]) + changes(seq![change]) =~= seq![(index, status)]);
}

} // verus!
