//! The messages between server and page, and what the page shows.
use std::collections::VecDeque;
use vstd::prelude::*;

use crate::text;

verus! {

/// Messages the server streams to the page.
#[derive(Clone, Debug)]
pub enum SttMsg {
    /// The utterance in progress, which replaces the one shown before.
    Partial { text: String },
    /// A completed line, which waits to be shown.
    Final { text: String },
    /// The state of the connection or the engine.
    Status { state: String },
}

/// Completed lines that are shown at a time.
pub const KEEP: usize = 6;

/// The size of letters to begin with, in pixels.
pub const FONT_PX: u32 = 48;

/// The state of the page.
pub struct Page {
    /// Whether speech is captured.
    running: bool,
    /// The size of letters, in pixels.
    font_px: u32,
    /// The utterance in progress.
    partial: String,
    /// The completed lines that are shown, the latest last.
    visible: Vec<String>,
    /// The completed lines that wait to be shown.
    queue: VecDeque<String>,
    /// What went wrong, for the user to read.
    status: String,
}

/// The state of the page, as values.
#[verifier::ext_equal]
pub struct Shown {
    pub running: bool,
    pub font_px: u32,
    pub partial: Seq<char>,
    pub visible: Seq<Seq<char>>,
    pub queue: Seq<Seq<char>>,
    pub status: Seq<char>,
}

/// What happens to the page.
pub enum Event {
    /// The button is pressed.
    Toggle,
    /// Capture has started.
    Started,
    /// Capture could not be started.
    NotStarted(Seq<char>),
    /// Capture failed after it had started.
    Failed(Seq<char>),
    /// The server sends the utterance in progress.
    Partial(Seq<char>),
    /// The server sends a completed line.
    Final(Seq<char>),
    /// The server sends its state.
    Status,
    /// Time has passed; `due` tells whether the last line was shown for long enough.
    Tick(bool),
    /// The size of letters is changed.
    Font(Seq<char>),
}

/// The page to begin with.
pub open spec fn blank_page() -> Shown {
    Shown {
        running: false,
        font_px: FONT_PX,
        partial: Seq::empty(),
        visible: Seq::empty(),
        queue: Seq::empty(),
        status: Seq::empty(),
    }
}

/// The last `k` lines, or all where there are fewer.
pub open spec fn last_lines(lines: Seq<Seq<char>>, k: nat) -> Seq<Seq<char>> {
    if lines.len() > k {
        lines.skip(lines.len() - k)
    } else {
        lines
    }
}

/// The page after an event.
pub open spec fn page_after(page: Shown, event: Event) -> Shown {
    match event {
        Event::Toggle => if page.running {
            Shown { partial: Seq::empty(), running: false, ..page }
        } else {
            Shown { status: Seq::empty(), ..page }
        },
        Event::Started => Shown { running: true, ..page },
        Event::NotStarted(why) => Shown { status: why, ..page },
        Event::Failed(why) => Shown { status: why, running: false, ..page },
        Event::Partial(line) => Shown { partial: line, ..page },
        Event::Final(line) => Shown {
            partial: Seq::empty(),
            queue: page.queue.push(line),
            ..page
        },
        Event::Status => page,
        Event::Tick(due) => if due && page.queue.len() > 0 {
            Shown {
                visible: last_lines(page.visible.push(page.queue[0]), KEEP as nat),
                queue: page.queue.drop_first(),
                ..page
            }
        } else {
            page
        },
        Event::Font(input) => match text::natural(input) {
            Some(v) => if v <= u32::MAX {
                Shown { font_px: v as u32, ..page }
            } else {
                page
            },
            None => page,
        },
    }
}

/// What the page does when the button is pressed.
#[derive(PartialEq, Eq, Structural, Clone, Copy, Debug)]
pub enum Press {
    /// It starts capture.
    Start,
    /// It stops capture.
    Stop,
}

/// The event that a message is.
pub open spec fn event_of(msg: SttMsg) -> Event {
    match msg {
        SttMsg::Partial { text } => Event::Partial(text@),
        SttMsg::Final { text } => Event::Final(text@),
        SttMsg::Status { state: _ } => Event::Status,
    }
}

impl View for Page {
    type V = Shown;

    closed spec fn view(&self) -> Shown {
        Shown {
            running: self.running,
            font_px: self.font_px,
            partial: self.partial@,
            visible: text::views(self.visible@),
            queue: text::views(self.queue@),
            status: self.status@,
        }
    }
}

impl Page {
    /// The page to begin with.
    pub fn new() -> (page: Self)
        ensures
            page@ == blank_page(),
    {
        let page = Page {
            running: false,
            font_px: FONT_PX,
            partial: String::new(),
            visible: Vec::new(),
            queue: VecDeque::new(),
            status: String::new(),
        };
        assert(page@ =~= blank_page());
        page
    }

    /// The button is pressed.
    pub fn toggle(&mut self) -> (press: Press)
        ensures
            final(self)@ == page_after(old(self)@, Event::Toggle),
            press == if old(self)@.running {
                Press::Stop
            } else {
                Press::Start
            },
    {
        if self.running {
            self.partial = String::new();
            self.running = false;
            Press::Stop
        } else {
            self.status = String::new();
            Press::Start
        }
    }

    /// Capture has started.
    pub fn started(&mut self)
        ensures
            final(self)@ == page_after(old(self)@, Event::Started),
    {
        self.running = true;
    }

    /// Capture could not be started.
    pub fn not_started(&mut self, why: String)
        ensures
            final(self)@ == page_after(old(self)@, Event::NotStarted(why@)),
    {
        self.status = why;
    }

    /// Capture failed after it had started.
    pub fn failed(&mut self, why: String)
        ensures
            final(self)@ == page_after(old(self)@, Event::Failed(why@)),
    {
        self.status = why;
        self.running = false;
    }

    /// The server sends a message.
    pub fn receive(&mut self, msg: SttMsg)
        ensures
            final(self)@ == page_after(old(self)@, event_of(msg)),
    {
        match msg {
            SttMsg::Partial { text } => {
                self.partial = text;
            },
            SttMsg::Final { text } => {
                let ghost before = text::views(self.queue@);
                let ghost line = text@;
                self.partial = String::new();
                self.queue.push_back(text);
                assert(text::views(self.queue@) == before.push(line));
            },
            SttMsg::Status { state: _ } => {},
        }
    }

    /// Time has passed: shows the next line that waits where one is due, and says whether it
    /// did.
    pub fn tick(&mut self, due: bool) -> (released: bool)
        ensures
            final(self)@ == page_after(old(self)@, Event::Tick(due)),
            released == (due && old(self)@.queue.len() > 0),
    {
        if !due {
            return false;
        }
        let ghost waiting = text::views(self.queue@);
        let ghost before = text::views(self.visible@);
        match self.queue.pop_front() {
            None => {
                assert(waiting.len() == 0);
                false
            },
            Some(line) => {
                assert(text::views(self.queue@) == waiting.drop_first());
                let ghost shown = before.push(line@);
                self.visible.push(line);
                assert(text::views(self.visible@) == shown);
                while self.visible.len() > KEEP
                    invariant
                        self.visible@.len() >= KEEP || self.visible@.len() == shown.len(),
                        self.visible@.len() <= shown.len(),
                        text::views(self.visible@) == shown.skip(
                            shown.len() - self.visible@.len(),
                        ),
                        self.running == old(self).running,
                        self.font_px == old(self).font_px,
                        self.partial == old(self).partial,
                        self.status == old(self).status,
                        text::views(self.queue@) == waiting.drop_first(),
                    decreases self.visible@.len(),
                {
                    let ghost held = text::views(self.visible@);
                    self.visible.remove(0);
                    assert(text::views(self.visible@) == held.drop_first());
                }
                assert(shown.skip(0) == shown);
                assert(text::views(self.visible@) == last_lines(shown, KEEP as nat));
                true
            },
        }
    }

    /// Time has passed: shows the next line that waits, unless it is too early for that, and
    /// says whether it did. `last` is when a line was shown last; `early` tells whether `now`
    /// is too early for the next.
    pub fn tick_at<T: Copy, F: Fn(T, T) -> bool>(
        &mut self,
        last: &mut T,
        now: T,
        early: &F,
    ) -> (released: bool)
        requires
            old(self)@.queue.len() > 0 ==> call_requires(*early, (now, *old(last))),
        ensures
            if released {
                &&& old(self)@.queue.len() > 0
                &&& call_ensures(*early, (now, *old(last)), false)
                &&& final(self)@ == page_after(old(self)@, Event::Tick(true))
                &&& *final(last) == now
            } else {
                &&& old(self)@.queue.len() == 0 || call_ensures(*early, (now, *old(last)), true)
                &&& final(self)@ == old(self)@
                &&& *final(last) == *old(last)
            },
    {
        let waiting: usize = self.queue.len();
        assert(waiting == self@.queue.len());
        if waiting == 0 || early(now, *last) {
            return false;
        }
        *last = now;
        self.tick(true)
    }

    /// The size of letters is changed to what the user entered, where that is a number.
    pub fn set_font(&mut self, input: &str)
        ensures
            final(self)@ == page_after(old(self)@, Event::Font(input@)),
    {
        match text::parse_u32(input) {
            Some(v) => {
                self.font_px = v;
            },
            None => {},
        }
    }

    /// Whether speech is captured.
    pub fn is_running(&self) -> (r: bool)
        ensures
            r == self@.running,
    {
        self.running
    }

    /// The size of letters, such as `48px`.
    pub fn font_size(&self) -> (s: String)
        ensures
            s@ == text::decimal(self@.font_px as nat) + "px"@,
    {
        let mut s = String::new();
        text::push_decimal(&mut s, self.font_px as u64);
        s.append("px");
        assert(s@ == text::decimal(self@.font_px as nat) + "px"@);
        s
    }

    /// The size of letters in pixels, without a unit.
    pub fn font_value(&self) -> (s: String)
        ensures
            s@ == text::decimal(self@.font_px as nat),
    {
        let mut s = String::new();
        text::push_decimal(&mut s, self.font_px as u64);
        assert(s@ == text::decimal(self@.font_px as nat));
        s
    }

    /// What stands on the button.
    pub fn button_label(&self) -> (s: &'static str)
        ensures
            s@ == if self@.running {
                "停止"@
            } else {
                "开始"@
            },
    {
        if self.running {
            "停止"
        } else {
            "开始"
        }
    }

    /// How many lines wait to be shown, in words; none where no line waits.
    pub fn waiting(&self) -> (s: Option<String>)
        ensures
            match s {
                None => self@.queue.len() == 0,
                Some(s) => {
                    &&& self@.queue.len() > 0
                    &&& s@ == "⏳ "@ + text::decimal(self@.queue.len()) + " 等待中"@
                },
            },
    {
        let count: usize = self.queue.len();
        assert(count == self@.queue.len());
        if count == 0 {
            None
        } else {
            let mut s: String = "⏳ ".to_owned();
            text::push_decimal(&mut s, count as u64);
            s.append(" 等待中");
            Some(s)
        }
    }

    /// What went wrong; empty where nothing did.
    pub fn status(&self) -> (s: &str)
        ensures
            s@ == self@.status,
    {
        self.status.as_str()
    }

    /// The lines that are shown, each with whether it is the latest.
    pub fn lines(&self) -> (lines: Vec<(String, bool)>)
        ensures
            lines@.len() == self@.visible.len(),
            forall|i: int|
                0 <= i < lines@.len() ==> (#[trigger] lines@[i]).0@ == self@.visible[i]
                    && lines@[i].1 == (i + 1 == lines@.len()),
    {
        let n: usize = self.visible.len();
        let mut lines: Vec<(String, bool)> = Vec::new();
        let mut i: usize = 0;
        while i < n
            invariant
                i <= n,
                n == self.visible@.len(),
                n == self@.visible.len(),
                self@.visible == text::views(self.visible@),
                lines@.len() == i,
                forall|j: int|
                    0 <= j < i ==> (#[trigger] lines@[j]).0@ == self@.visible[j] && lines@[j].1
                        == (j + 1 == n),
            decreases n - i,
        {
            lines.push((self.visible[i].clone(), i + 1 == n));
            i = i + 1;
        }
        lines
    }

    /// The line below: the utterance in progress, or what the page is doing.
    pub fn preview(&self) -> (s: String)
        ensures
            s@ == if !self@.running {
                "已停止"@
            } else if self@.partial.len() == 0 {
                "聆听中…"@
            } else {
                self@.partial
            },
    {
        if !self.running {
            "已停止".to_owned()
        } else if self.partial.as_str().is_empty() {
            "聆听中…".to_owned()
        } else {
            self.partial.clone()
        }
    }
}

/// The page after events.
pub open spec fn page_after_all(events: Seq<Event>) -> Shown
    decreases events.len(),
{
    if events.len() == 0 {
        blank_page()
    } else {
        page_after(page_after_all(events.drop_last()), events.last())
    }
}

/// The completed lines that the server sent, in order.
pub open spec fn lines_sent(events: Seq<Event>) -> Seq<Seq<char>>
    decreases events.len(),
{
    if events.len() == 0 {
        Seq::empty()
    } else {
        let before = lines_sent(events.drop_last());
        match events.last() {
            Event::Final(line) => before.push(line),
            _ => before,
        }
    }
}

/// Whatever happens, the completed lines come into view in the order in which the server sent
/// them, none lost and none twice: those that wait are the last ones sent, and those in view
/// are the last ones, at most [`KEEP`], of the others.
pub proof fn lines_are_shown_in_order(events: Seq<Event>)
    ensures
        page_after_all(events).queue.len() <= lines_sent(events).len(),
        ({
            let page = page_after_all(events);
            let sent = lines_sent(events);
            let released = sent.take(sent.len() - page.queue.len());
            &&& sent == released + page.queue
            &&& page.visible == last_lines(released, KEEP as nat)
        }),
    decreases events.len(),
{
    let page = page_after_all(events);
    let sent = lines_sent(events);
    let released = sent.take(sent.len() - page.queue.len());
    if events.len() > 0 {
        lines_are_shown_in_order(events.drop_last());
        let page0 = page_after_all(events.drop_last());
        let sent0 = lines_sent(events.drop_last());
        let released0 = sent0.take(sent0.len() - page0.queue.len());
        match events.last() {
            Event::Final(line) => {
                assert(released == released0);
                assert(sent == released + page.queue);
            },
            Event::Tick(due) => {
                if due && page0.queue.len() > 0 {
                    assert(sent0[released0.len() as int] == page0.queue[0]);
                    assert(released == released0.push(page0.queue[0]));
                    assert(sent == released + page.queue);
                    let shown = page0.visible.push(page0.queue[0]);
                    assert(last_lines(shown, KEEP as nat) == last_lines(released, KEEP as nat));
                }
            },
            _ => {},
        }
    } else {
        assert(sent == released + page.queue);
        assert(page.visible == last_lines(released, KEEP as nat));
    }
}

/// No more than [`KEEP`] completed lines are ever in view.
pub proof fn few_lines_are_in_view(events: Seq<Event>)
    ensures
        page_after_all(events).visible.len() <= KEEP,
{
    lines_are_shown_in_order(events);
}

/// Events without their times.
pub open spec fn untimed<T>(events: Seq<(Event, T)>) -> Seq<Event> {
    Seq::new(events.len(), |i: int| events[i].0)
}

/// Whether a line comes into view with an event, given the events before it.
pub open spec fn releases(before: Seq<Event>, event: Event) -> bool {
    event == Event::Tick(true) && page_after_all(before).queue.len() > 0
}

/// When lines came into view.
pub open spec fn release_times<T>(events: Seq<(Event, T)>) -> Seq<T>
    decreases events.len(),
{
    if events.len() == 0 {
        Seq::empty()
    } else {
        let before = release_times(events.drop_last());
        if releases(untimed(events.drop_last()), events.last().0) {
            before.push(events.last().1)
        } else {
            before
        }
    }
}

/// When a line came into view last; `start` where none did yet.
pub open spec fn last_release<T>(start: T, events: Seq<(Event, T)>) -> T {
    if release_times(events).len() == 0 {
        start
    } else {
        release_times(events).last()
    }
}

/// Whether lines come into view as [`Page::tick_at`] lets them: a line that waits is shown
/// exactly where `early` says that it is not too early after the last one.
pub open spec fn is_paced<T, F: Fn(T, T) -> bool>(
    start: T,
    events: Seq<(Event, T)>,
    early: F,
) -> bool
    decreases events.len(),
{
    events.len() > 0 ==> {
        let before = events.drop_last();
        &&& is_paced(start, before, early)
        &&& events.last().0 matches Event::Tick(due) ==> {
            page_after_all(untimed(before)).queue.len() > 0 ==> call_ensures(
                early,
                (events.last().1, last_release(start, before)),
                !due,
            )
        }
    }
}

proof fn releases_follow_one_another<T, F: Fn(T, T) -> bool>(
    start: T,
    events: Seq<(Event, T)>,
    early: F,
    apart: spec_fn(T, T) -> bool,
)
    requires
        is_paced(start, events, early),
        forall|now: T, last: T| #[trigger] call_ensures(early, (now, last), false) ==> apart(now, last),
        forall|a: T, b: T, c: T| #[trigger] apart(c, b) && #[trigger] apart(b, a) ==> apart(c, a),
    ensures
        page_after_all(untimed(events)).queue.len() + release_times(events).len() == lines_sent(
            untimed(events),
        ).len(),
        forall|j: int|
            0 <= j < release_times(events).len() ==> apart(#[trigger] release_times(events)[j], start),
        forall|i: int, j: int|
            0 <= i < j < release_times(events).len() ==> apart(
                #[trigger] release_times(events)[j],
                #[trigger] release_times(events)[i],
            ),
    decreases events.len(),
{
    if events.len() > 0 {
        let before = events.drop_last();
        releases_follow_one_another(start, before, early, apart);
        assert(untimed(events).drop_last() == untimed(before));
        assert(untimed(events).last() == events.last().0);
        let earlier = release_times(before);
        let times = release_times(events);
        if releases(untimed(before), events.last().0) {
            let now = events.last().1;
            let last = last_release(start, before);
            assert(call_ensures(early, (now, last), false));
            assert(apart(now, last));
            assert(times == earlier.push(now));
            assert forall|j: int| 0 <= j < times.len() implies apart(#[trigger] times[j], start) by {
                if j < earlier.len() {
                    assert(times[j] == earlier[j]);
                } else if earlier.len() > 0 {
                    assert(apart(earlier[earlier.len() - 1], start));
                }
            }
            assert forall|i: int, j: int| 0 <= i < j < times.len() implies apart(
                #[trigger] times[j],
                #[trigger] times[i],
            ) by {
                assert(times[i] == earlier[i]);
                if j < earlier.len() {
                    assert(times[j] == earlier[j]);
                } else if i < earlier.len() - 1 {
                    assert(apart(earlier[earlier.len() - 1], earlier[i]));
                }
            }
        }
    }
}

/// Completed lines come into view one at a time: in the order in which the server sent them,
/// none lost and none twice, the last ones, at most [`KEEP`], staying in view, and any two of
/// them apart in time, as is the first from the start. `apart` is any relation that holds where
/// `early` says that it is not too early, and that adds up: what comes apart from something
/// apart from a third is apart from the third.
pub proof fn lines_are_shown_apart<T, F: Fn(T, T) -> bool>(
    start: T,
    events: Seq<(Event, T)>,
    early: F,
    apart: spec_fn(T, T) -> bool,
)
    requires
        is_paced(start, events, early),
        forall|now: T, last: T| #[trigger] call_ensures(early, (now, last), false) ==> apart(now, last),
        forall|a: T, b: T, c: T| #[trigger] apart(c, b) && #[trigger] apart(b, a) ==> apart(c, a),
    ensures
        ({
            let page = page_after_all(untimed(events));
            let sent = lines_sent(untimed(events));
            let times = release_times(events);
            let released = sent.take(times.len() as int);
            &&& sent == released + page.queue
            &&& page.visible == last_lines(released, KEEP as nat)
        }),
        forall|j: int|
            0 <= j < release_times(events).len() ==> apart(#[trigger] release_times(events)[j], start),
        forall|i: int, j: int|
            0 <= i < j < release_times(events).len() ==> apart(
                #[trigger] release_times(events)[j],
                #[trigger] release_times(events)[i],
            ),
{
    releases_follow_one_another(start, events, early, apart);
    lines_are_shown_in_order(untimed(events));
}

/// Capture is off while the page says why it failed, unless it was started again.
pub proof fn a_failure_turns_capture_off(page: Shown, why: Seq<char>)
    ensures
        !page_after(page, Event::Failed(why)).running,
        page_after(page, Event::Failed(why)).status == why,
        page_after(page_after(page, Event::Failed(why)), Event::Toggle).status == Seq::<
            char,
        >::empty(),
{
}

/// Six lines are shown at a time, in letters of 48 pixels to begin with; then nothing is shown,
/// nothing waits and nothing is captured.
pub proof fn the_page_begins_empty()
    ensures
        KEEP == 6,
        blank_page().font_px == 48,
        !blank_page().running,
        blank_page().partial == Seq::<char>::empty(),
        blank_page().visible == Seq::<Seq<char>>::empty(),
        blank_page().queue == Seq::<Seq<char>>::empty(),
        blank_page().status == Seq::<char>::empty(),
{
}

/// A completed line waits behind those that wait already and takes the place of the utterance in
/// progress, which is cleared; nothing else changes.
pub proof fn a_completed_line_waits(page: Shown, line: Seq<char>)
    ensures
        ({
            let next = page_after(page, Event::Final(line));
            &&& next.queue == page.queue + seq![line]
            &&& next.partial == Seq::<char>::empty()
            &&& next.visible == page.visible && next.running == page.running && next.font_px
                == page.font_px && next.status == page.status
        }),
{
}

/// The utterance in progress replaces the one shown before; nothing else changes. The state of
/// the server changes nothing.
pub proof fn the_utterance_in_progress_is_replaced(page: Shown, line: Seq<char>)
    ensures
        ({
            let next = page_after(page, Event::Partial(line));
            &&& next.partial == line
            &&& next.queue == page.queue && next.visible == page.visible && next.running
                == page.running && next.font_px == page.font_px && next.status == page.status
        }),
        page_after(page, Event::Status) == page,
{
}

/// When a line is due, the one that waits longest comes into view behind the others, of which the
/// last five stay; without one that waits, and before it is due, nothing changes.
pub proof fn a_line_comes_into_view_when_due(page: Shown)
    requires
        page.visible.len() <= 6,
    ensures
        page_after(page, Event::Tick(false)) == page,
        page.queue.len() == 0 ==> page_after(page, Event::Tick(true)) == page,
        page.queue.len() > 0 ==> {
            let next = page_after(page, Event::Tick(true));
            &&& next.queue == page.queue.skip(1)
            &&& page.visible.len() < 6 ==> next.visible == page.visible + seq![page.queue[0]]
            &&& page.visible.len() == 6 ==> next.visible == page.visible.skip(1) + seq![
                page.queue[0],
            ]
            &&& next.partial == page.partial && next.running == page.running && next.font_px
                == page.font_px && next.status == page.status
        },
{
    if page.queue.len() > 0 {
        assert(page.queue.drop_first() == page.queue.skip(1));
        let shown = page.visible.push(page.queue[0]);
        assert(shown == page.visible + seq![page.queue[0]]);
        if page.visible.len() == 6 {
            assert(shown.skip(1) == page.visible.skip(1) + seq![page.queue[0]]);
        }
    }
}

/// Pressing the button while speech is captured stops that and clears the utterance in progress;
/// pressing it otherwise clears what went wrong, and capture is on once it has started.
pub proof fn the_button_starts_and_stops(page: Shown)
    ensures
        ({
            let next = page_after(page, Event::Toggle);
            &&& !next.running
            &&& page.running ==> next.partial == Seq::<char>::empty() && next.status == page.status
            &&& !page.running ==> next.status == Seq::<char>::empty() && next.partial
                == page.partial
            &&& next.queue == page.queue && next.visible == page.visible && next.font_px
                == page.font_px
        }),
        ({
            let next = page_after(page, Event::Started);
            &&& next.running
            &&& next.partial == page.partial && next.status == page.status && next.queue
                == page.queue && next.visible == page.visible && next.font_px == page.font_px
        }),
{
}

/// What went wrong is shown; a failure of running capture also turns it off. Nothing else changes.
pub proof fn what_went_wrong_is_shown(page: Shown, why: Seq<char>)
    ensures
        ({
            let next = page_after(page, Event::NotStarted(why));
            &&& next.status == why && next.running == page.running
            &&& next.partial == page.partial && next.queue == page.queue && next.visible
                == page.visible && next.font_px == page.font_px
        }),
        ({
            let next = page_after(page, Event::Failed(why));
            &&& next.status == why && !next.running
            &&& next.partial == page.partial && next.queue == page.queue && next.visible
                == page.visible && next.font_px == page.font_px
        }),
{
}

/// The size of letters becomes the natural number of 32 bits that is entered; what is none
/// changes nothing, and nothing else changes.
pub proof fn letters_take_the_size_entered(page: Shown, input: Seq<char>)
    ensures
        ({
            let next = page_after(page, Event::Font(input));
            let v = text::natural(input);
            &&& v is Some && v->0 <= 0xFFFF_FFFF ==> next.font_px == v->0
            &&& !(v is Some && v->0 <= 0xFFFF_FFFF) ==> next.font_px == page.font_px
            &&& next.running == page.running && next.partial == page.partial && next.queue
                == page.queue && next.visible == page.visible && next.status == page.status
        }),
{
}

/// Messages of the server are the events of the same name, with their text.
pub proof fn messages_are_events(text: String)
    ensures
        event_of(SttMsg::Partial { text }) == Event::Partial(text@),
        event_of(SttMsg::Final { text }) == Event::Final(text@),
        event_of(SttMsg::Status { state: text }) == Event::Status,
{
}

/// A further event is answered on the page that those before it led to, and counts as a line
/// sent exactly where it is a completed one.
pub proof fn events_happen_in_order(events: Seq<Event>, event: Event)
    ensures
        page_after_all(events.push(event)) == page_after(page_after_all(events), event),
        event matches Event::Final(line) ==> lines_sent(events.push(event)) == lines_sent(events)
            + seq![line],
        !(event is Final) ==> lines_sent(events.push(event)) == lines_sent(events),
{
    assert(events.push(event).drop_last() == events);
}

} // verus!
