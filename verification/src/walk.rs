//! Bounded-depth directory walking.
//!
//! The walker enumerates the directories beneath a root, at most a fixed
//! number of levels deep, skipping hidden entries, in pre-order: each kept
//! directory appears before the contents of its own subtree, and siblings
//! appear in listing order.
//!
//! Reading the filesystem is the caller's business. The walker is a state
//! machine: `next_request` names the directory whose listing it needs, the
//! caller reads that directory — handing back an empty listing when the
//! read fails — and `supply` consumes the listing. When `next_request`
//! returns nothing, the walk is complete and `results` holds the paths.

use vstd::prelude::*;
use vstd::string::StrSliceExecFns;

verus! {

/// One directory entry as the caller reports it: the entry's full path
/// and whether it is a directory. Entries whose kind cannot be determined
/// are reported as non-directories and are then dropped by the walker.
pub struct Entry {
    pub path: String,
    pub is_dir: bool,
}

/// The mathematical shape of an `Entry`.
#[verifier::ext_equal]
pub ghost struct EntryModel {
    pub path: Seq<char>,
    pub is_dir: bool,
}

impl DeepView for Entry {
    type V = EntryModel;

    open spec fn deep_view(&self) -> EntryModel {
        EntryModel { path: self.path@, is_dir: self.is_dir }
    }
}

/// The final component of a path: the text after the last separator, or
/// the whole path when it has no separator.
pub open spec fn last_component(path: Seq<char>) -> Seq<char>
    decreases path.len(),
{
    if path.len() == 0 {
        path
    } else if path.last() == '/' {
        Seq::empty()
    } else {
        last_component(path.drop_last()).push(path.last())
    }
}

/// Whether a path names a hidden entry: its final component begins with a
/// dot character.
pub open spec fn is_hidden(path: Seq<char>) -> bool {
    last_component(path).len() > 0 && last_component(path)[0] == '.'
}

/// Whether a listed entry survives filtering: it is a directory and it is
/// not hidden.
pub open spec fn keep_entry(e: EntryModel) -> bool {
    e.is_dir && !is_hidden(e.path)
}

/// Whether the final component of `path` begins with a dot character.
pub fn starts_with_dot(path: &String) -> (r: bool)
    ensures
        r == is_hidden(path@),
{
    let s = path.as_str();
    let n = s.unicode_len();
    let mut comp_start: usize = 0;
    let mut i: usize = 0;
    while i < n
        invariant
            i <= n,
            comp_start <= i,
            n == s@.len(),
            s@ == path@,
            last_component(s@.take(i as int)) == s@.subrange(comp_start as int, i as int),
        decreases n - i,
    {
        let c = s.get_char(i);
        proof {
            assert(s@.take(i + 1).drop_last() =~= s@.take(i as int));
            assert(s@.take(i + 1).last() == s@[i as int]);
        }
        if c == '/' {
            comp_start = i + 1;
            proof {
                assert(last_component(s@.take(i + 1)) =~= s@.subrange(i + 1, i + 1));
            }
        } else {
            proof {
                assert(last_component(s@.take(i + 1)) == last_component(s@.take(i as int)).push(
                    s@[i as int],
                ));
                assert(s@.subrange(comp_start as int, i as int).push(s@[i as int]) =~= s@.subrange(
                    comp_start as int,
                    i + 1,
                ));
            }
        }
        i = i + 1;
    }
    proof {
        assert(s@.take(n as int) =~= s@);
    }
    if comp_start < n {
        let c = s.get_char(comp_start);
        proof {
            assert(last_component(s@)[0] == s@[comp_start as int]);
        }
        c == '.'
    } else {
        proof {
            assert(last_component(s@).len() == 0);
        }
        false
    }
}

/// Whether a listed path should appear in the walk's output: it must be a
/// directory and its final component must not begin with a dot.
pub fn path_should_appear(path: &String, is_dir: bool) -> (r: bool)
    ensures
        r == keep_entry(EntryModel { path: path@, is_dir }),
{
    is_dir && !starts_with_dot(path)
}

/// One frame of the walker's stack: a directory still to handle.
struct Frame {
    path: String,
    depth: u32,
    emit: bool,
}

/// The mathematical shape of a stack frame: the path, the number of
/// levels still to descend beneath it, and whether the path itself
/// belongs to the output (the root does not).
#[verifier::ext_equal]
pub ghost struct FrameModel {
    pub path: Seq<char>,
    pub depth: u32,
    pub emit: bool,
}

impl DeepView for Frame {
    type V = FrameModel;

    closed spec fn deep_view(&self) -> FrameModel {
        FrameModel { path: self.path@, depth: self.depth, emit: self.emit }
    }
}

/// The walker's full mathematical state: the stack of frames still to
/// handle (top last), the paths emitted so far, and — between a request
/// and its listing — the depth the requested directory's children will
/// descend to.
#[verifier::ext_equal]
pub ghost struct WalkerModel {
    pub stack: Seq<FrameModel>,
    pub output: Seq<Seq<char>>,
    pub pending: Option<u32>,
}

/// The walker's state right after construction: one frame for the root,
/// which is listed but does not itself appear in the output.
pub open spec fn initial_model(root: Seq<char>, depth: u32) -> WalkerModel {
    WalkerModel {
        stack: seq![FrameModel { path: root, depth, emit: false }],
        output: Seq::empty(),
        pending: None::<u32>,
    }
}

/// What handling frames from the top of the stack does, up to the first
/// frame that needs a directory listing: the remaining stack, the output
/// grown by the handled frames' paths, and the request — the path to list
/// next together with the depth still to descend from it — or nothing
/// when the walk is complete.
pub open spec fn advance_model(stack: Seq<FrameModel>, output: Seq<Seq<char>>) -> (
    Seq<FrameModel>,
    Seq<Seq<char>>,
    Option<(Seq<char>, u32)>,
)
    decreases stack.len(),
{
    if stack.len() == 0 {
        (stack, output, None::<(Seq<char>, u32)>)
    } else {
        let f = stack.last();
        let grown = if f.emit {
            output.push(f.path)
        } else {
            output
        };
        if f.depth >= 1 {
            (stack.drop_last(), grown, Some((f.path, f.depth)))
        } else {
            advance_model(stack.drop_last(), grown)
        }
    }
}

/// The frames that a supplied listing pushes: one frame per kept entry,
/// each to descend `depth` further levels and to appear in the output.
/// The last entry's frame comes first, so that the first entry ends on
/// top of the stack and is walked first.
pub open spec fn frames_rev(entries: Seq<EntryModel>, depth: u32) -> Seq<FrameModel>
    decreases entries.len(),
{
    if entries.len() == 0 {
        Seq::empty()
    } else {
        let e = entries.last();
        let rest = frames_rev(entries.drop_last(), depth);
        if keep_entry(e) {
            seq![FrameModel { path: e.path, depth, emit: true }] + rest
        } else {
            rest
        }
    }
}

/// A bounded-depth directory walk in progress.
///
/// The caller alternates `next_request` and `supply` until `next_request`
/// returns nothing; `results` then holds the kept directories in
/// pre-order: each before its own subtree, siblings in listing order.
pub struct Walker {
    stack: Vec<Frame>,
    output: Vec<String>,
    current: Option<u32>,
}

impl View for Walker {
    type V = WalkerModel;

    closed spec fn view(&self) -> WalkerModel {
        WalkerModel {
            stack: self.stack.deep_view(),
            output: self.output.deep_view(),
            pending: self.current,
        }
    }
}

impl Walker {
    /// A walker for the subtree under `root`, descending at most `depth`
    /// directory levels below it.
    pub fn new(root: String, depth: u32) -> (w: Walker)
        ensures
            w@ == initial_model(root@, depth),
    {
        let mut stack: Vec<Frame> = Vec::new();
        stack.push(Frame { path: root, depth, emit: false });
        let w = Walker { stack, output: Vec::new(), current: None };
        proof {
            assert(w@ =~= initial_model(w.stack[0].path@, depth));
        }
        w
    }

    /// Whether the walker is waiting for a listing: true between a
    /// request and the matching `supply`.
    pub fn awaiting(&self) -> (r: bool)
        ensures
            r == (self@.pending is Some),
    {
        self.current.is_some()
    }

    /// The paths found so far, in pre-order; after the walk is complete,
    /// the walk's whole result.
    pub fn results(self) -> (r: Vec<String>)
        ensures
            r.deep_view() == self@.output,
    {
        self.output
    }

    /// Handles frames from the top of the stack and returns the path of
    /// the next directory whose listing the walker needs, or nothing when
    /// the walk is complete. Each handled frame that is due in the output
    /// — the requested one included — has its path appended as it is
    /// handled; the root's frame is not due.
    pub fn next_request(&mut self) -> (r: Option<String>)
        requires
            old(self)@.pending is None,
        ensures
            ({
                let a = advance_model(old(self)@.stack, old(self)@.output);
                &&& final(self)@.stack == a.0
                &&& final(self)@.output == a.1
                &&& match a.2 {
                    Some(req) => {
                        &&& r matches Some(p) && p@ == req.0
                        &&& final(self)@.pending == Some((req.1 - 1) as u32)
                    },
                    None => r is None && final(self)@.pending is None,
                }
            }),
    {
        let ghost s0 = self@.stack;
        let ghost o0 = self@.output;
        loop
            invariant
                self@.pending is None,
                s0 == old(self)@.stack,
                o0 == old(self)@.output,
                advance_model(self@.stack, self@.output) == advance_model(s0, o0),
            decreases self@.stack.len(),
        {
            let ghost st = self@.stack;
            let ghost ot = self@.output;
            let popped = self.stack.pop();
            match popped {
                None => {
                    proof {
                        assert(st.len() == 0);
                        assert(advance_model(st, ot) == (st, ot, None::<(Seq<char>, u32)>));
                        assert(self.stack.deep_view() =~= st);
                    }
                    return None;
                },
                Some(f) => {
                    let Frame { path, depth, emit } = f;
                    let ghost pv = path@;
                    proof {
                        assert(self.stack.deep_view() =~= st.drop_last());
                        assert(st.last() == FrameModel { path: pv, depth, emit });
                    }
                    if depth >= 1 {
                        if emit {
                            let shown = path.clone();
                            self.output.push(shown);
                            proof {
                                assert(self.output.deep_view() =~= ot.push(pv));
                            }
                        }
                        self.current = Some(depth - 1);
                        proof {
                            assert(advance_model(st, ot) == (
                                st.drop_last(),
                                if emit {
                                    ot.push(pv)
                                } else {
                                    ot
                                },
                                Some((pv, depth)),
                            ));
                        }
                        return Some(path);
                    } else {
                        if emit {
                            self.output.push(path);
                            proof {
                                assert(self.output.deep_view() =~= ot.push(pv));
                            }
                        }
                        proof {
                            assert(advance_model(st, ot) == advance_model(
                                st.drop_last(),
                                if emit {
                                    ot.push(pv)
                                } else {
                                    ot
                                },
                            ));
                        }
                    }
                },
            }
        }
    }

    /// Consumes the listing of the directory most recently requested —
    /// an empty listing where the read failed. Each kept entry becomes a
    /// stack frame, the last entry's first, so the walk visits entries in
    /// listing order, each parent directly before its own subtree.
    pub fn supply(&mut self, entries: Vec<Entry>)
        requires
            old(self)@.pending is Some,
        ensures
            final(self)@.stack == old(self)@.stack + frames_rev(
                entries.deep_view(),
                old(self)@.pending.unwrap(),
            ),
            final(self)@.output == old(self)@.output,
            final(self)@.pending is None,
    {
        let d = self.current.unwrap();
        self.current = None;
        let ghost all = entries.deep_view();
        let ghost base = self@.stack;
        let mut rest = entries;
        loop
            invariant
                self@.pending is None,
                self@.output == old(self)@.output,
                base == old(self)@.stack,
                old(self)@.pending is Some,
                d == old(self)@.pending.unwrap(),
                all == entries.deep_view(),
                base + frames_rev(all, d) == self@.stack + frames_rev(rest.deep_view(), d),
            decreases rest@.len(),
        {
            let ghost st = self@.stack;
            let ghost re = rest.deep_view();
            let popped = rest.pop();
            match popped {
                None => {
                    proof {
                        assert(re.len() == 0);
                        assert(frames_rev(re, d) == Seq::<FrameModel>::empty());
                        assert(st + frames_rev(re, d) =~= st);
                        assert(self.stack.deep_view() =~= st);
                        assert(self@.stack =~= base + frames_rev(all, d));
                    }
                    return ;
                },
                Some(e) => {
                    let Entry { path, is_dir } = e;
                    let ghost pv = path@;
                    proof {
                        assert(rest.deep_view() =~= re.drop_last());
                        assert(re.last() == EntryModel { path: pv, is_dir });
                    }
                    if path_should_appear(&path, is_dir) {
                        self.stack.push(Frame { path, depth: d, emit: true });
                        proof {
                            assert(self.stack.deep_view() =~= st.push(
                                FrameModel { path: pv, depth: d, emit: true },
                            ));
                            assert(frames_rev(re, d) == seq![
                                FrameModel { path: pv, depth: d, emit: true },
                            ] + frames_rev(re.drop_last(), d));
                            assert(st.push(FrameModel { path: pv, depth: d, emit: true })
                                + frames_rev(re.drop_last(), d) =~= st + frames_rev(re, d));
                        }
                    } else {
                        proof {
                            assert(frames_rev(re, d) == frames_rev(re.drop_last(), d));
                        }
                    }
                },
            }
        }
    }
}

/// A filesystem, abstractly: the listing of each readable directory, by
/// path. A path outside the map is unreadable or absent; `fs_listing`
/// gives it an empty listing, which is exactly how the walker's caller
/// reports a failed read.
pub open spec fn fs_listing(fs: Map<Seq<char>, Seq<EntryModel>>, path: Seq<char>) -> Seq<
    EntryModel,
> {
    if fs.dom().contains(path) {
        fs[path]
    } else {
        Seq::empty()
    }
}

/// The bounded pre-order walk itself: the directories reachable from
/// `path` by descending at most `depth` levels, hidden entries and
/// non-directories excluded, each kept directory directly before its own
/// subtree, siblings in listing order.
pub open spec fn walk_model(fs: Map<Seq<char>, Seq<EntryModel>>, path: Seq<char>, depth: u32) -> Seq<
    Seq<char>,
>
    decreases depth, 0nat,
{
    if depth == 0 {
        Seq::empty()
    } else {
        walk_children(fs, fs_listing(fs, path), (depth - 1) as u32)
    }
}

/// The walk of one listing: each kept entry's path, followed by that
/// entry's subtree walked `depth` levels deep, in listing order.
pub open spec fn walk_children(
    fs: Map<Seq<char>, Seq<EntryModel>>,
    entries: Seq<EntryModel>,
    depth: u32,
) -> Seq<Seq<char>>
    decreases depth, entries.len() + 1,
{
    if entries.len() == 0 {
        Seq::empty()
    } else {
        let e = entries.last();
        walk_children(fs, entries.drop_last(), depth) + (if keep_entry(e) {
            seq![e.path] + walk_model(fs, e.path, depth)
        } else {
            Seq::empty()
        })
    }
}

/// What one stack frame still promises to the output: its own path, when
/// it is to be emitted, followed by its subtree.
pub open spec fn frame_contribution(fs: Map<Seq<char>, Seq<EntryModel>>, f: FrameModel) -> Seq<
    Seq<char>,
> {
    (if f.emit {
        seq![f.path]
    } else {
        Seq::empty()
    }) + walk_model(fs, f.path, f.depth)
}

/// What a whole stack still promises: the top frame's contribution first.
pub open spec fn stack_contribution(
    fs: Map<Seq<char>, Seq<EntryModel>>,
    stack: Seq<FrameModel>,
) -> Seq<Seq<char>>
    decreases stack.len(),
{
    if stack.len() == 0 {
        Seq::empty()
    } else {
        frame_contribution(fs, stack.last()) + stack_contribution(fs, stack.drop_last())
    }
}

/// The frames that a listing pushes promise exactly that listing's walk,
/// ahead of whatever the stack below them promises.
proof fn lemma_frames_contribution(
    fs: Map<Seq<char>, Seq<EntryModel>>,
    s: Seq<FrameModel>,
    entries: Seq<EntryModel>,
    depth: u32,
)
    ensures
        stack_contribution(fs, s + frames_rev(entries, depth)) == walk_children(fs, entries, depth)
            + stack_contribution(fs, s),
    decreases entries.len(),
{
    if entries.len() == 0 {
        assert(s + frames_rev(entries, depth) =~= s);
        assert(walk_children(fs, entries, depth) + stack_contribution(fs, s) =~= stack_contribution(
            fs,
            s,
        ));
    } else {
        let e = entries.last();
        let rest = entries.drop_last();
        if keep_entry(e) {
            let frm = FrameModel { path: e.path, depth, emit: true };
            assert(frames_rev(entries, depth) == seq![frm] + frames_rev(rest, depth));
            assert(s + frames_rev(entries, depth) =~= (s + seq![frm]) + frames_rev(rest, depth));
            lemma_frames_contribution(fs, s + seq![frm], rest, depth);
            assert((s + seq![frm]).drop_last() =~= s);
            assert((s + seq![frm]).last() == frm);
            assert(stack_contribution(fs, s + seq![frm]) == frame_contribution(fs, frm)
                + stack_contribution(fs, s));
            assert(frame_contribution(fs, frm) =~= seq![e.path] + walk_model(fs, e.path, depth));
            assert(walk_children(fs, entries, depth) == walk_children(fs, rest, depth) + (seq![
                e.path,
            ] + walk_model(fs, e.path, depth)));
            assert(walk_children(fs, rest, depth) + (seq![e.path] + walk_model(fs, e.path, depth))
                + stack_contribution(fs, s) =~= walk_children(fs, rest, depth) + ((seq![e.path]
                + walk_model(fs, e.path, depth)) + stack_contribution(fs, s)));
        } else {
            assert(frames_rev(entries, depth) == frames_rev(rest, depth));
            lemma_frames_contribution(fs, s, rest, depth);
            assert(walk_children(fs, entries, depth) =~= walk_children(fs, rest, depth));
        }
    }
}

/// The heart of the walker's correctness: handling frames preserves what
/// the walk still owes. When `advance_model` completes, the output holds
/// everything the stack promised; when it requests a directory, the
/// output plus the promise of the stack as the matching listing of `fs`
/// will leave it — the requested directory's entries pushed as frames —
/// still equals the output plus the old stack's promise. A caller that
/// always supplies `fs_listing(fs, p)` for the requested `p` therefore
/// ends with exactly the promised walk in its output.
pub proof fn lemma_advance_preserves_walk(
    fs: Map<Seq<char>, Seq<EntryModel>>,
    stack: Seq<FrameModel>,
    output: Seq<Seq<char>>,
)
    ensures
        ({
            let a = advance_model(stack, output);
            match a.2 {
                None => a.1 == output + stack_contribution(fs, stack),
                Some(req) => a.1 + stack_contribution(
                    fs,
                    a.0 + frames_rev(fs_listing(fs, req.0), (req.1 - 1) as u32),
                ) == output + stack_contribution(fs, stack),
            }
        }),
    decreases stack.len(),
{
    if stack.len() == 0 {
        assert(output + stack_contribution(fs, stack) =~= output);
    } else {
        let f = stack.last();
        let below = stack.drop_last();
        let grown = if f.emit {
            output.push(f.path)
        } else {
            output
        };
        let emitted = if f.emit {
            seq![f.path]
        } else {
            Seq::<Seq<char>>::empty()
        };
        assert(grown =~= output + emitted);
        assert(stack_contribution(fs, stack) == frame_contribution(fs, f) + stack_contribution(
            fs,
            below,
        ));
        if f.depth >= 1 {
            let cd = (f.depth - 1) as u32;
            assert(advance_model(stack, output) == (below, grown, Some((f.path, f.depth))));
            lemma_frames_contribution(fs, below, fs_listing(fs, f.path), cd);
            assert(walk_model(fs, f.path, f.depth) == walk_children(fs, fs_listing(fs, f.path), cd));
            assert(frame_contribution(fs, f) == emitted + walk_model(fs, f.path, f.depth));
            assert((output + emitted) + (walk_model(fs, f.path, f.depth) + stack_contribution(
                fs,
                below,
            )) =~= output + ((emitted + walk_model(fs, f.path, f.depth)) + stack_contribution(
                fs,
                below,
            )));
        } else {
            assert(advance_model(stack, output) == advance_model(below, grown));
            lemma_advance_preserves_walk(fs, below, grown);
            assert(walk_model(fs, f.path, 0) == Seq::<Seq<char>>::empty());
            assert(frame_contribution(fs, f) =~= emitted);
            assert((output + emitted) + stack_contribution(fs, below) =~= output + (emitted
                + stack_contribution(fs, below)));
            assert(grown + stack_contribution(fs, below) == output + stack_contribution(fs, stack));
        }
    }
}

/// The initial stack promises exactly the bounded pre-order walk of the
/// root.
pub proof fn lemma_initial_promises_walk(
    fs: Map<Seq<char>, Seq<EntryModel>>,
    root: Seq<char>,
    depth: u32,
)
    ensures
        stack_contribution(fs, initial_model(root, depth).stack) == walk_model(fs, root, depth),
{
    let st = initial_model(root, depth).stack;
    assert(st.drop_last() =~= Seq::<FrameModel>::empty());
    assert(stack_contribution(fs, st) == frame_contribution(fs, st.last()) + stack_contribution(
        fs,
        st.drop_last(),
    ));
    assert(frame_contribution(fs, st.last()) =~= walk_model(fs, root, depth));
    assert(frame_contribution(fs, st.last()) + Seq::<Seq<char>>::empty() =~= frame_contribution(
        fs,
        st.last(),
    ));
}

/// A root that the filesystem cannot list contributes no paths, whatever
/// the depth bound.
pub proof fn lemma_absent_root_walk_empty(
    fs: Map<Seq<char>, Seq<EntryModel>>,
    root: Seq<char>,
    depth: u32,
)
    requires
        !fs.dom().contains(root),
    ensures
        walk_model(fs, root, depth) == Seq::<Seq<char>>::empty(),
{
    if depth > 0 {
        assert(fs_listing(fs, root) == Seq::<EntryModel>::empty());
        assert(walk_children(fs, Seq::<EntryModel>::empty(), (depth - 1) as u32) == Seq::<
            Seq<char>,
        >::empty());
    }
}

/// With a depth bound of zero, a walk over any root yields no paths and
/// requests no directory listing.
pub proof fn lemma_depth_zero_yields_empty(root: Seq<char>)
    ensures
        ({
            let a = advance_model(initial_model(root, 0).stack, initial_model(root, 0).output);
            &&& a.0 == Seq::<FrameModel>::empty()
            &&& a.1 == Seq::<Seq<char>>::empty()
            &&& a.2 is None
        }),
{
    let m = initial_model(root, 0);
    assert(m.stack.drop_last() =~= Seq::<FrameModel>::empty());
    assert(advance_model(m.stack, m.output) == advance_model(m.stack.drop_last(), m.output));
    assert(advance_model(Seq::<FrameModel>::empty(), m.output) == (
        Seq::<FrameModel>::empty(),
        m.output,
        None::<(Seq<char>, u32)>,
    ));
}

/// A walk whose root cannot be listed — the caller then supplies an empty
/// listing — requests exactly the root and yields no paths.
pub proof fn lemma_unreadable_root_yields_empty(root: Seq<char>, depth: u32)
    requires
        depth >= 1,
    ensures
        ({
            let a = advance_model(initial_model(root, depth).stack, initial_model(root, depth).output);
            &&& a.2 == Some((root, depth))
            &&& frames_rev(Seq::<EntryModel>::empty(), (depth - 1) as u32)
                == Seq::<FrameModel>::empty()
            &&& ({
                let b = advance_model(
                    a.0 + frames_rev(Seq::<EntryModel>::empty(), (depth - 1) as u32),
                    a.1,
                );
                &&& b.1 == Seq::<Seq<char>>::empty()
                &&& b.2 is None
            })
        }),
{
    let m = initial_model(root, depth);
    assert(m.stack.drop_last() =~= Seq::<FrameModel>::empty());
    assert(advance_model(m.stack, m.output) == (
        m.stack.drop_last(),
        m.output,
        Some((root, depth)),
    ));
    let a = advance_model(m.stack, m.output);
    assert(frames_rev(Seq::<EntryModel>::empty(), (depth - 1) as u32) == Seq::<
        FrameModel,
    >::empty());
    assert(a.0 + frames_rev(Seq::<EntryModel>::empty(), (depth - 1) as u32) =~= Seq::<
        FrameModel,
    >::empty());
    assert(advance_model(Seq::<FrameModel>::empty(), m.output) == (
        Seq::<FrameModel>::empty(),
        m.output,
        None::<(Seq<char>, u32)>,
    ));
}

} // verus!
