//! The program a test plays in place of one left running after a detached handoff.
//!
//! What the application writes to the program is recorded, and the test says the program's
//! lines and ends it. Lines said before the application listens wait for it, as they would in a
//! pipe; nothing is said after the end, and only the first end counts.

use vstd::prelude::*;

use crate::outcomes::{ChildLine, ChildLineView};

verus! {

/// Writing to a program whose standard input is closed, or that ended.
#[derive(Debug, Clone, Copy, PartialEq, Eq)]
pub struct InputClosed;

/// The program a test plays: what it was written, whether its input is open, whether it was
/// killed, how it ended, and what it said that was not yet handed on.
#[derive(Debug)]
pub struct TestChild {
    written: Vec<String>,
    stdin_open: bool,
    killed: bool,
    code: Option<Option<i32>>,
    said: Vec<ChildLine>,
    attached: bool,
}

/// A [`TestChild`] as plain values.
#[verifier::ext_equal]
pub struct TestChildView {
    pub written: Seq<Seq<char>>,
    pub stdin_open: bool,
    pub killed: bool,
    pub code: Option<Option<i32>>,
    /// What was said and not yet handed on, oldest first.
    pub said: Seq<ChildLineView>,
    /// Whether something receives what is said.
    pub attached: bool,
}

/// Something done to a stand-in program.
pub enum ChildOp {
    /// The application wrote this line.
    Write(Seq<char>),
    /// The application closed the program's input.
    Close,
    /// The program said this line.
    Say(Seq<char>),
    /// The program ended with this code.
    Exit(Option<i32>),
    /// The program was killed.
    Kill,
    /// What the program said was handed on.
    TakeSaid,
    /// Something asked to receive what the program says.
    Attach,
    /// What the program said was handed on to what receives it, if anything does.
    Deliver,
}

/// The stand-in program `v` after `op`.
pub open spec fn child_after(v: TestChildView, op: ChildOp) -> TestChildView {
    match op {
        ChildOp::Write(line) => if v.stdin_open && v.code is None {
            TestChildView { written: v.written.push(line), ..v }
        } else {
            v
        },
        ChildOp::Close => TestChildView { stdin_open: false, ..v },
        ChildOp::Say(line) => if v.code is None {
            TestChildView { said: v.said.push(ChildLineView::Line(line)), ..v }
        } else {
            v
        },
        ChildOp::Exit(code) => if v.code is None {
            TestChildView { code: Some(code), said: v.said.push(ChildLineView::Ended(code)), ..v }
        } else {
            v
        },
        ChildOp::Kill => if v.code is None {
            TestChildView { killed: true, code: Some(None), said: v.said.push(ChildLineView::Ended(None)), ..v }
        } else {
            TestChildView { killed: true, ..v }
        },
        ChildOp::TakeSaid => TestChildView { said: Seq::empty(), ..v },
        ChildOp::Attach => if v.attached { v } else { TestChildView { said: Seq::empty(), attached: true, ..v } },
        ChildOp::Deliver => if v.attached { TestChildView { said: Seq::empty(), ..v } } else { v },
    }
}

/// The stand-in program `v` after each of `ops` in turn.
pub open spec fn child_run(v: TestChildView, ops: Seq<ChildOp>) -> TestChildView
    decreases ops.len(),
{
    if ops.len() == 0 {
        v
    } else {
        child_after(child_run(v, ops.drop_last()), ops.last())
    }
}

/// The ops that write each of `lines`, in order.
pub open spec fn writes_of(lines: Seq<Seq<char>>) -> Seq<ChildOp> {
    lines.map_values(|l: Seq<char>| ChildOp::Write(l))
}

/// The texts of `strings`.
pub open spec fn texts_of(strings: Seq<String>) -> Seq<Seq<char>> {
    strings.map_values(|s: String| s@)
}

/// The views of `lines`.
pub open spec fn said_of(lines: Seq<ChildLine>) -> Seq<ChildLineView> {
    lines.map_values(|l: ChildLine| l@)
}

impl View for TestChild {
    type V = TestChildView;

    closed spec fn view(&self) -> TestChildView {
        TestChildView {
            written: texts_of(self.written@),
            stdin_open: self.stdin_open,
            killed: self.killed,
            code: self.code,
            said: said_of(self.said@),
            attached: self.attached,
        }
    }
}

impl TestChild {
    /// A program that runs, reads its input and has said nothing yet.
    pub fn new() -> (child: Self)
        ensures
            child@.written.len() == 0,
            child@.stdin_open,
            !child@.killed,
            child@.code is None,
            child@.said.len() == 0,
            !child@.attached,
    {
        TestChild { written: Vec::new(), stdin_open: true, killed: false, code: None, said: Vec::new(), attached: false }
    }

    /// The program writes `line` on its standard output. Nothing is said after it ended.
    pub fn say(&mut self, line: String)
        ensures
            final(self)@ == child_after(old(self)@, ChildOp::Say(line@)),
            final(self)@.written == old(self)@.written,
            final(self)@.stdin_open == old(self)@.stdin_open,
            final(self)@.killed == old(self)@.killed,
            final(self)@.code == old(self)@.code,
            final(self)@.said == if old(self)@.code is None {
                old(self)@.said.push(ChildLineView::Line(line@))
            } else {
                old(self)@.said
            },
    {
        if self.code.is_none() {
            let ghost before = self.said@;
            self.said.push(ChildLine::Line(line));
            assert(said_of(self.said@) =~= said_of(before).push(ChildLineView::Line(line@)));
        }
    }

    /// The program ends with `code` (`None` for a signal): its end is said after its lines.
    /// Only the first end counts.
    pub fn exit(&mut self, code: Option<i32>)
        ensures
            final(self)@ == child_after(old(self)@, ChildOp::Exit(code)),
            final(self)@.written == old(self)@.written,
            final(self)@.stdin_open == old(self)@.stdin_open,
            final(self)@.killed == old(self)@.killed,
            old(self)@.code is None ==> final(self)@.code == Some(code)
                && final(self)@.said == old(self)@.said.push(ChildLineView::Ended(code)),
            old(self)@.code is Some ==> final(self)@.code == old(self)@.code
                && final(self)@.said == old(self)@.said,
    {
        if self.code.is_none() {
            let ghost before = self.said@;
            self.code = Some(code);
            self.said.push(ChildLine::Ended { code });
            assert(said_of(self.said@) =~= said_of(before).push(ChildLineView::Ended(code)));
        }
    }

    /// Every line the application wrote, oldest first.
    pub fn written(&self) -> (written: Vec<String>)
        ensures
            texts_of(written@) == self@.written,
    {
        let mut copy: Vec<String> = Vec::new();
        let mut i: usize = 0;
        while i < self.written.len()
            invariant
                i <= self.written@.len(),
                texts_of(copy@) == texts_of(self.written@).take(i as int),
            decreases self.written@.len() - i,
        {
            let ghost before = copy@;
            copy.push(self.written[i].clone());
            assert(texts_of(copy@) =~= texts_of(before).push(self.written@[i as int]@));
            assert(texts_of(self.written@).take(i + 1) =~= texts_of(self.written@).take(i as int).push(
                self.written@[i as int]@,
            ));
            i = i + 1;
        }
        assert(texts_of(self.written@).take(i as int) =~= texts_of(self.written@));
        copy
    }

    /// Whether the program's standard input is still open.
    pub fn stdin_open(&self) -> (open: bool)
        ensures
            open == self@.stdin_open,
    {
        self.stdin_open
    }

    /// Whether the application killed the program.
    pub fn killed(&self) -> (killed: bool)
        ensures
            killed == self@.killed,
    {
        self.killed
    }

    /// The application writes `line` to the program's standard input. A program whose input is
    /// closed, or that ended, takes nothing.
    pub fn write_line(&mut self, line: &str) -> (result: Result<(), InputClosed>)
        ensures
            final(self)@ == child_after(old(self)@, ChildOp::Write(line@)),
            result is Ok <==> old(self)@.stdin_open && old(self)@.code is None,
            result is Ok ==> final(self)@.written == old(self)@.written.push(line@),
            result is Err ==> final(self)@.written == old(self)@.written,
            final(self)@.stdin_open == old(self)@.stdin_open,
            final(self)@.killed == old(self)@.killed,
            final(self)@.code == old(self)@.code,
            final(self)@.said == old(self)@.said,
    {
        if !self.stdin_open || self.code.is_some() {
            return Err(InputClosed);
        }
        let ghost before = self.written@;
        self.written.push(line.to_owned());
        assert(texts_of(self.written@) =~= texts_of(before).push(line@));
        Ok(())
    }

    /// The application closes the program's standard input. Closing it again does nothing.
    pub fn close_stdin(&mut self)
        ensures
            final(self)@ == child_after(old(self)@, ChildOp::Close),
            !final(self)@.stdin_open,
            final(self)@.written == old(self)@.written,
            final(self)@.killed == old(self)@.killed,
            final(self)@.code == old(self)@.code,
            final(self)@.said == old(self)@.said,
    {
        self.stdin_open = false;
    }

    /// The application kills the program: it ends by a signal, unless it had ended already.
    pub fn kill(&mut self)
        ensures
            final(self)@ == child_after(old(self)@, ChildOp::Kill),
            final(self)@.killed,
            final(self)@.written == old(self)@.written,
            final(self)@.stdin_open == old(self)@.stdin_open,
            old(self)@.code is None ==> final(self)@.code == Some(None::<i32>)
                && final(self)@.said == old(self)@.said.push(ChildLineView::Ended(None)),
            old(self)@.code is Some ==> final(self)@.code == old(self)@.code
                && final(self)@.said == old(self)@.said,
    {
        self.killed = true;
        self.exit(None);
    }

    /// How the program ended: `None` while it runs, then `Some(code)`.
    pub fn try_wait(&self) -> (code: Option<Option<i32>>)
        ensures
            code == self@.code,
    {
        self.code
    }

    /// Hands on what the program said since the last call, oldest first, and forgets it.
    pub fn take_said(&mut self) -> (said: Vec<ChildLine>)
        ensures
            final(self)@ == child_after(old(self)@, ChildOp::TakeSaid),
            said_of(said@) == old(self)@.said,
            final(self)@.said.len() == 0,
            final(self)@.written == old(self)@.written,
            final(self)@.stdin_open == old(self)@.stdin_open,
            final(self)@.killed == old(self)@.killed,
            final(self)@.code == old(self)@.code,
    {
        let mut said: Vec<ChildLine> = Vec::new();
        std::mem::swap(&mut said, &mut self.said);
        assert(said_of(self.said@) =~= Seq::<ChildLineView>::empty());
        said
    }

    /// Something asks to receive what the program says: only the first asking counts. It gets
    /// what was said before, oldest first (`None` for any later asking, which receives nothing),
    /// and what is said from then on goes to it through [`TestChild::deliverable`].
    pub fn attach(&mut self) -> (replay: Option<Vec<ChildLine>>)
        ensures
            final(self)@ == child_after(old(self)@, ChildOp::Attach),
            old(self)@.attached ==> replay is None,
            !old(self)@.attached ==> (replay matches Some(r) && said_of(r@) == old(self)@.said),
    {
        if self.attached {
            return None;
        }
        self.attached = true;
        Some(self.take_said())
    }

    /// What to hand on now to what receives the program's lines: everything said since, oldest
    /// first, once something is attached; nothing before that, when it waits for the first
    /// attach.
    pub fn deliverable(&mut self) -> (lines: Vec<ChildLine>)
        ensures
            final(self)@ == child_after(old(self)@, ChildOp::Deliver),
            old(self)@.attached ==> said_of(lines@) == old(self)@.said,
            !old(self)@.attached ==> lines@.len() == 0,
    {
        if self.attached {
            self.take_said()
        } else {
            Vec::new()
        }
    }
}

/// Lines written while the program reads its input and runs are all kept, in the order they
/// were written, after those written before.
pub proof fn lemma_written_lines_are_kept_in_order(v: TestChildView, lines: Seq<Seq<char>>)
    requires
        v.stdin_open,
        v.code is None,
    ensures
        child_run(v, writes_of(lines)).written == v.written + lines,
        child_run(v, writes_of(lines)).stdin_open,
        child_run(v, writes_of(lines)).code is None,
    decreases lines.len(),
{
    if lines.len() == 0 {
        assert(writes_of(lines) =~= Seq::<ChildOp>::empty());
        assert(v.written + lines =~= v.written);
    } else {
        let rest = lines.drop_last();
        lemma_written_lines_are_kept_in_order(v, rest);
        assert(writes_of(lines).drop_last() =~= writes_of(rest));
        assert(v.written + rest.push(lines.last()) =~= (v.written + rest).push(lines.last()));
        assert(rest.push(lines.last()) =~= lines);
    }
}

/// Once the program's input is closed it never opens again, whatever follows.
pub proof fn lemma_closed_input_stays_closed(v: TestChildView, ops: Seq<ChildOp>)
    requires
        !v.stdin_open,
    ensures
        !child_run(v, ops).stdin_open,
    decreases ops.len(),
{
    if ops.len() > 0 {
        lemma_closed_input_stays_closed(v, ops.drop_last());
    }
}

/// The program's input stays open as long as it is not closed, whatever else happens.
pub proof fn lemma_input_stays_open_until_closed(v: TestChildView, ops: Seq<ChildOp>)
    requires
        v.stdin_open,
        forall|i: int| 0 <= i < ops.len() ==> !(#[trigger] ops[i] is Close),
    ensures
        child_run(v, ops).stdin_open,
    decreases ops.len(),
{
    if ops.len() > 0 {
        assert forall|i: int| 0 <= i < ops.drop_last().len() implies !(#[trigger] ops.drop_last()[i] is Close) by {
            assert(ops.drop_last()[i] == ops[i]);
        }
        lemma_input_stays_open_until_closed(v, ops.drop_last());
        assert(!(ops[ops.len() - 1] is Close));
    }
}

/// Only the first attach counts: once something is attached, attaching again changes nothing
/// and hands nothing on.
pub proof fn lemma_only_the_first_attach_counts(v: TestChildView)
    requires
        v.attached,
    ensures
        child_after(v, ChildOp::Attach) == v,
{
}

} // verus!
