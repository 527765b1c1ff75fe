//! What a disk must be told so that it follows the in-memory file system:
//! the steps that the recorded events call for, in order, each with the
//! bytes the file system now holds. A disk-backed shell runs its commands
//! on the memory file system and then carries out these steps on disk.
use crate::fs::{event_views, find_spec, read_spec, Fs, FsEvent, FsEventView, FsView};
use crate::parser::string_views;
use vstd::prelude::*;

verus! {

/// One thing to do on disk, at a virtual path.
pub enum DiskStep {
    MakeDir(String),
    Write(String, Vec<u8>),
    Remove(String),
    RemoveAll(String),
    Rename(String, String),
}

pub enum StepView {
    MakeDir(Seq<char>),
    Write(Seq<char>, Seq<u8>),
    Remove(Seq<char>),
    RemoveAll(Seq<char>),
    Rename(Seq<char>, Seq<char>),
}

impl DiskStep {
    pub open spec fn view(&self) -> StepView {
        match self {
            DiskStep::MakeDir(p) => StepView::MakeDir(p@),
            DiskStep::Write(p, b) => StepView::Write(p@, b@),
            DiskStep::Remove(p) => StepView::Remove(p@),
            DiskStep::RemoveAll(p) => StepView::RemoveAll(p@),
            DiskStep::Rename(a, b) => StepView::Rename(a@, b@),
        }
    }
}

pub open spec fn step_views(v: Seq<DiskStep>) -> Seq<StepView> {
    Seq::new(v.len(), |i: int| v[i].view())
}

/// What the file system now holds at a path as a file, or nothing.
pub open spec fn content_or_empty(st: FsView, p: Seq<char>) -> Seq<u8> {
    match read_spec(st, p, "/"@) {
        Some(c) => c,
        None => seq![],
    }
}

/// A write of each of the paths that is a file now, with its bytes.
pub open spec fn write_found(st: FsView, qs: Seq<Seq<char>>) -> Seq<StepView>
    decreases qs.len(),
{
    if qs.len() == 0 {
        seq![]
    } else {
        let r = write_found(st, qs.drop_last());
        match read_spec(st, qs.last(), "/"@) {
            Some(c) => r.push(StepView::Write(qs.last(), c)),
            None => r,
        }
    }
}

/// The steps one event calls for: the same change on disk; a file written
/// or created gets the bytes it holds now; after a move, every file at or
/// below where it landed is written with the bytes it holds now.
pub open spec fn event_steps(st: FsView, e: FsEventView) -> Seq<StepView> {
    match e {
        FsEventView::Mkdir(p) => seq![StepView::MakeDir(p)],
        FsEventView::CreateFile(p) => seq![StepView::Write(p, content_or_empty(st, p))],
        FsEventView::WriteFile(p, _) => seq![StepView::Write(p, content_or_empty(st, p))],
        FsEventView::Remove(p) => seq![StepView::Remove(p)],
        FsEventView::RemoveAll(p) => seq![StepView::RemoveAll(p)],
        FsEventView::Move(s, d) => seq![StepView::Rename(s, d)] + write_found(st, find_spec(st, d, "*"@)),
    }
}

/// The steps of all the events, in order.
pub open spec fn disk_steps_spec(st: FsView, es: Seq<FsEventView>) -> Seq<StepView>
    decreases es.len(),
{
    if es.len() == 0 {
        seq![]
    } else {
        disk_steps_spec(st, es.drop_last()) + event_steps(st, es.last())
    }
}

fn content_now(fs: &Fs, p: &String) -> (r: Vec<u8>)
    ensures
        r@ == content_or_empty(fs.view(), p@),
{
    match fs.read_file(p.as_str(), "/") {
        Some(c) => c,
        None => Vec::new(),
    }
}

fn push_found(fs: &Fs, d: &String, out: &mut Vec<DiskStep>)
    ensures
        step_views(final(out)@) == step_views(old(out)@) + write_found(fs.view(), find_spec(fs.view(), d@, "*"@)),
{
    let found = fs.find(d.as_str(), "*");
    let ghost qs = string_views(found@);
    let ghost base = step_views(out@);
    let mut i: usize = 0;
    assert(qs.take(0) =~= seq![]);
    assert(base + write_found(fs.view(), qs.take(0)) =~= base);
    while i < found.len()
        invariant
            i <= found@.len(),
            qs == string_views(found@),
            qs == find_spec(fs.view(), d@, "*"@),
            step_views(out@) == base + write_found(fs.view(), qs.take(i as int)),
        decreases found@.len() - i,
    {
        let ghost tk = qs.take(i + 1);
        assert(tk.drop_last() =~= qs.take(i as int));
        assert(tk.last() == found@[i as int]@);
        match fs.read_file(found[i].as_str(), "/") {
            Some(c) => {
                let ghost before = step_views(out@);
                out.push(DiskStep::Write(found[i].clone(), c));
                assert(step_views(out@) =~= before.push(out@.last().view()));
                assert(step_views(out@) =~= base + write_found(fs.view(), tk));
            },
            None => {
                assert(step_views(out@) =~= base + write_found(fs.view(), tk));
            },
        }
        i = i + 1;
    }
    assert(qs.take(found@.len() as int) =~= qs);
}

/// The steps on disk that the events recorded by `fs` call for, with the
/// bytes `fs` holds now.
pub fn disk_steps(fs: &Fs, events: &Vec<FsEvent>) -> (r: Vec<DiskStep>)
    ensures
        step_views(r@) == disk_steps_spec(fs.view(), event_views(events@)),
{
    let ghost ev = event_views(events@);
    let mut out: Vec<DiskStep> = Vec::new();
    let mut i: usize = 0;
    assert(ev.take(0) =~= seq![]);
    assert(step_views(out@) =~= seq![]);
    while i < events.len()
        invariant
            i <= events@.len(),
            ev == event_views(events@),
            step_views(out@) == disk_steps_spec(fs.view(), ev.take(i as int)),
        decreases events@.len() - i,
    {
        let ghost tk = ev.take(i + 1);
        assert(tk.drop_last() =~= ev.take(i as int));
        assert(tk.last() == events@[i as int].view());
        let ghost before = step_views(out@);
        match &events[i] {
            FsEvent::Mkdir { path } => {
                out.push(DiskStep::MakeDir(path.clone()));
            },
            FsEvent::CreateFile { path } => {
                let c = content_now(fs, path);
                out.push(DiskStep::Write(path.clone(), c));
            },
            FsEvent::WriteFile { path, .. } => {
                let c = content_now(fs, path);
                out.push(DiskStep::Write(path.clone(), c));
            },
            FsEvent::Remove { path } => {
                out.push(DiskStep::Remove(path.clone()));
            },
            FsEvent::RemoveAll { path } => {
                out.push(DiskStep::RemoveAll(path.clone()));
            },
            FsEvent::Move { src, dst } => {
                out.push(DiskStep::Rename(src.clone(), dst.clone()));
                assert(step_views(out@) =~= before + seq![out@.last().view()]);
                push_found(fs, dst, &mut out);
            },
        }
        assert(step_views(out@) =~= before + event_steps(fs.view(), tk.last()));
        i = i + 1;
    }
    assert(ev.take(events@.len() as int) =~= ev);
    out
}

} // verus!
