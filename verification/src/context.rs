//! The session state: a pending-input buffer for continuation lines and the
//! registry of directories that spawned commands fan out to.
//!
//! The registry holds canonical absolute paths as plain strings.  Turning a
//! user-given path into its canonical form needs the filesystem, so the
//! driver resolves paths first and hands the outcome in; the registry itself
//! never stores a path that failed to resolve, and never stores one twice.

use vstd::prelude::*;

use crate::strutil::str_eq;

verus! {

/// Start-up configuration: the directories to register before the first
/// prompt.
pub struct MshConfig {
    preload_dirs: Vec<String>,
}

impl MshConfig {
    /// The preloaded directory paths.
    pub closed spec fn preload(self) -> Seq<Seq<char>> {
        self.preload_dirs.deep_view()
    }

    pub fn new(preload_dirs: Vec<String>) -> (r: MshConfig)
        ensures
            r.preload() == preload_dirs.deep_view(),
    {
        MshConfig { preload_dirs }
    }

    /// The directories to register at start, in the given order.
    pub fn dirs(&self) -> (r: &Vec<String>)
        ensures
            r.deep_view() == self.preload(),
    {
        &self.preload_dirs
    }
}

/// The buffer of an incomplete logical line, and the set of registered
/// directories.
pub struct Context {
    buffer: String,
    dir_registry: Vec<String>,
}

proof fn lemma_push_to_set(s: Seq<Seq<char>>, x: Seq<char>)
    requires
        s.no_duplicates(),
        !s.contains(x),
    ensures
        s.push(x).no_duplicates(),
        s.push(x).to_set() == s.to_set().insert(x),
{
    assert(s.push(x).no_duplicates()) by {
        assert forall|k1: int, k2: int| 0 <= k1 < k2 < s.push(x).len() implies s.push(x)[k1] != s
            .push(x)[k2] by {
            if k2 == s.len() {
                assert(s.push(x)[k1] == s[k1]);
                assert(s.contains(s[k1]));
            } else {
                assert(s.push(x)[k1] == s[k1]);
                assert(s.push(x)[k2] == s[k2]);
            }
        }
    }
    assert forall|y: Seq<char>| s.push(x).to_set().contains(y) <==> s.to_set().insert(x).contains(
        y,
    ) by {
        if s.push(x).contains(y) {
            let k = choose|k: int| 0 <= k < s.push(x).len() && s.push(x)[k] == y;
            if k == s.len() {
            } else {
                assert(s[k] == y);
            }
        }
        if s.contains(y) {
            let k = choose|k: int| 0 <= k < s.len() && s[k] == y;
            assert(s.push(x)[k] == y);
        }
        if y == x {
            assert(s.push(x)[s.len() as int] == y);
        }
    }
    assert(s.push(x).to_set() =~= s.to_set().insert(x));
}

proof fn lemma_remove_to_set(s: Seq<Seq<char>>, idx: int)
    requires
        s.no_duplicates(),
        0 <= idx < s.len(),
    ensures
        s.remove(idx).no_duplicates(),
        s.remove(idx).to_set() == s.to_set().remove(s[idx]),
{
    assert(s.remove(idx).no_duplicates()) by {
        assert forall|k1: int, k2: int| 0 <= k1 < k2 < s.remove(idx).len() implies s.remove(idx)[
            k1] != s.remove(idx)[k2] by {
            let m1: int = if k1 < idx {
                k1
            } else {
                k1 + 1
            };
            let m2: int = if k2 < idx {
                k2
            } else {
                k2 + 1
            };
            assert(s.remove(idx)[k1] == s[m1]);
            assert(s.remove(idx)[k2] == s[m2]);
        }
    }
    assert forall|y: Seq<char>| s.remove(idx).to_set().contains(y) <==> s.to_set().remove(
        s[idx],
    ).contains(y) by {
        if s.remove(idx).contains(y) {
            let k = choose|k: int| 0 <= k < s.remove(idx).len() && s.remove(idx)[k] == y;
            let m: int = if k < idx {
                k
            } else {
                k + 1
            };
            assert(s.remove(idx)[k] == s[m]);
            assert(s.contains(y));
            assert(y != s[idx]);
        }
        if s.contains(y) && y != s[idx] {
            let m = choose|m: int| 0 <= m < s.len() && s[m] == y;
            let k: int = if m < idx {
                m
            } else {
                m - 1
            };
            assert(s.remove(idx)[k] == s[m]);
        }
    }
    assert(s.remove(idx).to_set() =~= s.to_set().remove(s[idx]));
}

impl Context {
    /// The pending continuation input.
    pub closed spec fn buffer_view(self) -> Seq<char> {
        self.buffer@
    }

    /// The registered directories, in registration order.
    pub closed spec fn dir_entries(self) -> Seq<Seq<char>> {
        self.dir_registry.deep_view()
    }

    /// The registered directories as a set; registration order carries no
    /// meaning.
    pub open spec fn dir_set(self) -> Set<Seq<char>> {
        self.dir_entries().to_set()
    }

    /// No directory is held twice.
    pub open spec fn wf(self) -> bool {
        self.dir_entries().no_duplicates()
    }

    /// A fresh session: empty buffer, empty registry.
    pub fn new() -> (r: Context)
        ensures
            r.wf(),
            r.buffer_view() == Seq::<char>::empty(),
            r.dir_entries() == Seq::<Seq<char>>::empty(),
    {
        let r = Context { buffer: String::new(), dir_registry: Vec::new() };
        proof {
            assert(r.dir_entries() =~= Seq::<Seq<char>>::empty());
        }
        r
    }

    /// Appends a partial line to the pending buffer.
    pub fn push_buffer(&mut self, push: &str)
        ensures
            final(self).buffer_view() == old(self).buffer_view() + push@,
            final(self).dir_entries() == old(self).dir_entries(),
    {
        self.buffer.append(push);
    }

    /// Takes the buffered input joined with the given line, leaving the
    /// buffer empty.
    pub fn take_buffer(&mut self, join_with: &str) -> (r: String)
        ensures
            r@ == old(self).buffer_view() + join_with@,
            final(self).buffer_view() == Seq::<char>::empty(),
            final(self).dir_entries() == old(self).dir_entries(),
    {
        self.buffer.append(join_with);
        let full = self.buffer.clone();
        self.buffer = String::new();
        full
    }

    /// Whether a continuation is pending.
    pub fn has_buffer(&self) -> (r: bool)
        ensures
            r == (self.buffer_view().len() != 0),
    {
        !self.buffer.as_str().is_empty()
    }

    /// Adds a canonical path to the registry.  Returns whether it was new;
    /// adding a path again changes nothing.
    pub fn register(&mut self, path: &str) -> (is_new: bool)
        requires
            old(self).wf(),
        ensures
            final(self).wf(),
            is_new == !old(self).dir_set().contains(path@),
            final(self).dir_entries() == if is_new {
                old(self).dir_entries().push(path@)
            } else {
                old(self).dir_entries()
            },
            final(self).dir_set() == old(self).dir_set().insert(path@),
            final(self).buffer_view() == old(self).buffer_view(),
    {
        let n = self.dir_registry.len();
        let mut idx: usize = 0;
        while idx < n
            invariant
                0 <= idx <= n,
                n == self.dir_registry.len(),
                self == old(self),
                old(self).wf(),
                forall|l: int| 0 <= l < idx ==> self.dir_entries()[l] != path@,
            decreases n - idx,
        {
            if str_eq(self.dir_registry[idx].as_str(), path) {
                proof {
                    assert(self.dir_entries()[idx as int] == path@);
                    assert(self.dir_set().contains(path@));
                    assert(self.dir_set().insert(path@) =~= self.dir_set());
                }
                return false;
            }
            idx = idx + 1;
        }
        let ghost pre = self.dir_entries();
        self.dir_registry.push(path.to_owned());
        proof {
            assert(self.dir_entries() =~= pre.push(path@));
            if pre.contains(path@) {
                let k = choose|k: int| 0 <= k < pre.len() && pre[k] == path@;
                assert(false);
            }
            lemma_push_to_set(pre, path@);
        }
        true
    }

    /// Removes a canonical path from the registry.  Returns whether it was
    /// present; removing an absent path changes nothing.
    pub fn unregister(&mut self, path: &str) -> (was_present: bool)
        requires
            old(self).wf(),
        ensures
            final(self).wf(),
            was_present == old(self).dir_set().contains(path@),
            final(self).dir_set() == old(self).dir_set().remove(path@),
            was_present ==> exists|m: int|
                0 <= m < old(self).dir_entries().len() && old(self).dir_entries()[m] == path@
                    && final(self).dir_entries() == old(self).dir_entries().remove(m),
            !was_present ==> final(self).dir_entries() == old(self).dir_entries(),
            final(self).dir_entries().len() == old(self).dir_entries().len() - (if was_present {
                1int
            } else {
                0int
            }),
            final(self).buffer_view() == old(self).buffer_view(),
    {
        let n = self.dir_registry.len();
        let mut idx: usize = 0;
        while idx < n
            invariant
                0 <= idx <= n,
                n == self.dir_registry.len(),
                self == old(self),
                old(self).wf(),
                forall|l: int| 0 <= l < idx ==> self.dir_entries()[l] != path@,
            decreases n - idx,
        {
            if str_eq(self.dir_registry[idx].as_str(), path) {
                let ghost pre = self.dir_entries();
                self.dir_registry.remove(idx);
                proof {
                    assert(pre[idx as int] == path@);
                    assert(pre.contains(path@));
                    assert(self.dir_entries() =~= pre.remove(idx as int));
                    lemma_remove_to_set(pre, idx as int);
                }
                return true;
            }
            idx = idx + 1;
        }
        proof {
            if self.dir_entries().contains(path@) {
                let k = choose|k: int|
                    0 <= k < self.dir_entries().len() && self.dir_entries()[k] == path@;
                assert(false);
            }
            assert(self.dir_set().remove(path@) =~= self.dir_set());
        }
        false
    }

    /// Empties the registry.
    pub fn clear_registry(&mut self)
        ensures
            final(self).wf(),
            final(self).dir_entries() == Seq::<Seq<char>>::empty(),
            final(self).dir_set() == Set::<Seq<char>>::empty(),
            final(self).buffer_view() == old(self).buffer_view(),
    {
        self.dir_registry.clear();
        proof {
            assert(self.dir_entries() =~= Seq::<Seq<char>>::empty());
            assert(self.dir_set() =~= Set::<Seq<char>>::empty());
        }
    }

    /// How many directories are registered.
    pub fn dir_count(&self) -> (r: usize)
        requires
            self.wf(),
        ensures
            r == self.dir_entries().len(),
            r == self.dir_set().len(),
    {
        proof {
            self.dir_entries().unique_seq_to_set();
        }
        self.dir_registry.len()
    }

    /// The directories one spawned command runs in: every registered
    /// directory, or the current directory alone when the registry is empty.
    /// The registry itself is read, never changed, so an empty registry stays
    /// empty after the run.
    pub fn execution_targets(&self, cwd: &str) -> (r: Vec<String>)
        ensures
            r.deep_view() == if self.dir_entries().len() == 0 {
                seq![cwd@]
            } else {
                self.dir_entries()
            },
    {
        let n = self.dir_registry.len();
        if n == 0 {
            let mut r: Vec<String> = Vec::new();
            r.push(cwd.to_owned());
            proof {
                assert(r.deep_view() =~= seq![cwd@]);
            }
            return r;
        }
        let mut r: Vec<String> = Vec::new();
        let mut idx: usize = 0;
        while idx < n
            invariant
                0 <= idx <= n,
                n == self.dir_registry.len(),
                r.len() == idx,
                forall|l: int| 0 <= l < idx ==> r.deep_view()[l] == self.dir_entries()[l],
            decreases n - idx,
        {
            let ghost pre = r@;
            r.push(self.dir_registry[idx].clone());
            proof {
                assert(r@ == pre.push(r@[idx as int]));
                assert(r.deep_view()[idx as int] == self.dir_entries()[idx as int]);
                assert forall|l: int| 0 <= l < idx as int + 1 implies r.deep_view()[l]
                    == self.dir_entries()[l] by {
                    if l < idx as int {
                        assert(r@[l] == pre[l]);
                    }
                }
            }
            idx = idx + 1;
        }
        proof {
            assert(r.deep_view() =~= self.dir_entries());
        }
        r
    }

    /// The registry listing the `dump` builtin prints: a heading, then one
    /// line per directory in registration order.
    pub fn dump_string(&self) -> (r: String)
        ensures
            r@ == "Registered directories:"@ + seq!['\n'] + spec_dump_lines(self.dir_entries()),
    {
        let mut r = String::from_str("Registered directories:");
        r.append("\n");
        proof {
            reveal_strlit("\n");
            assert("\n"@ =~= seq!['\n']);
        }
        let n = self.dir_registry.len();
        let mut idx: usize = 0;
        while idx < n
            invariant
                0 <= idx <= n,
                n == self.dir_registry.len(),
                r@ == "Registered directories:"@ + seq!['\n'] + spec_dump_lines(
                    self.dir_entries().subrange(0, idx as int),
                ),
            decreases n - idx,
        {
            let ghost pre = r@;
            r.append(self.dir_registry[idx].as_str());
            r.append("\n");
            proof {
                reveal_strlit("\n");
                assert("\n"@ =~= seq!['\n']);
                let prefix = self.dir_entries().subrange(0, idx as int);
                let longer = self.dir_entries().subrange(0, idx as int + 1);
                assert(longer.drop_last() =~= prefix);
                assert(longer.last() == self.dir_entries()[idx as int]);
                assert(r@ =~= pre + self.dir_entries()[idx as int] + seq!['\n']);
                assert(("Registered directories:"@ + seq!['\n'] + spec_dump_lines(prefix))
                    + self.dir_entries()[idx as int] + seq!['\n'] =~= "Registered directories:"@
                    + seq!['\n'] + (spec_dump_lines(prefix) + self.dir_entries()[idx as int]
                    + seq!['\n']));
            }
            idx = idx + 1;
        }
        proof {
            assert(self.dir_entries().subrange(0, n as int) =~= self.dir_entries());
        }
        r
    }
}

/// The body of the registry dump: each directory followed by a newline.
pub open spec fn spec_dump_lines(dirs: Seq<Seq<char>>) -> Seq<char>
    decreases dirs.len(),
{
    if dirs.len() == 0 {
        Seq::empty()
    } else {
        spec_dump_lines(dirs.drop_last()) + dirs.last() + seq!['\n']
    }
}

/// Registering the same canonical path twice: the first insertion is the one
/// that grows the registry, the second finds the path present and leaves the
/// registry, and so its count, unchanged.
pub proof fn lemma_register_twice(s: Set<Seq<char>>, p: Seq<char>)
    requires
        s.finite(),
    ensures
        s.insert(p).contains(p),
        s.insert(p).insert(p) == s.insert(p),
        !s.contains(p) ==> s.insert(p).len() == s.len() + 1,
        s.contains(p) ==> s.insert(p).len() == s.len(),
{
    assert(s.insert(p).insert(p) =~= s.insert(p));
    if s.contains(p) {
        assert(s.insert(p) =~= s);
    }
}

/// The outcome of resolving one user-given path to canonical form, done by
/// the driver against the filesystem before the registry is touched.
pub struct PathResolution {
    pub given: String,
    pub outcome: Result<String, String>,
}

pub open spec fn resolution_view(p: PathResolution) -> (Seq<char>, Result<Seq<char>, Seq<char>>) {
    (
        p.given@,
        match p.outcome {
            Ok(s) => Ok(s@),
            Err(e) => Err(e@),
        },
    )
}

pub open spec fn resolutions_view(v: Seq<PathResolution>) -> Seq<
    (Seq<char>, Result<Seq<char>, Seq<char>>),
> {
    v.map_values(|p: PathResolution| resolution_view(p))
}

/// The registry contents after folding in each resolved path in order:
/// resolved paths are inserted, failed ones skipped, so one bad path never
/// stops the paths after it.
pub open spec fn spec_register_all(
    s: Set<Seq<char>>,
    items: Seq<(Seq<char>, Result<Seq<char>, Seq<char>>)>,
) -> Set<Seq<char>>
    decreases items.len(),
{
    if items.len() == 0 {
        s
    } else {
        let rest = spec_register_all(s, items.drop_last());
        match items.last().1 {
            Ok(p) => rest.insert(p),
            Err(_) => rest,
        }
    }
}

/// The message reported for one path during registration, given the registry
/// contents just before that path is handled.
pub open spec fn spec_register_message(
    reg: Set<Seq<char>>,
    item: (Seq<char>, Result<Seq<char>, Seq<char>>),
) -> Seq<char> {
    match item.1 {
        Ok(p) => if reg.contains(p) {
            "Already Registered: "@ + p
        } else {
            "Registered new path: "@ + p
        },
        Err(e) => "Cannot register path "@ + item.0 + ": "@ + e,
    }
}

/// Registers each resolved path in order and reports one message per path;
/// a path that failed to resolve is reported and skipped, never stored.
pub fn register_paths(ctx: &mut Context, items: &Vec<PathResolution>) -> (msgs: Vec<String>)
    requires
        old(ctx).wf(),
    ensures
        final(ctx).wf(),
        final(ctx).buffer_view() == old(ctx).buffer_view(),
        final(ctx).dir_set() == spec_register_all(old(ctx).dir_set(), resolutions_view(items@)),
        msgs.len() == items.len(),
        forall|k: int|
            0 <= k < items@.len() ==> msgs.deep_view()[k] == spec_register_message(
                spec_register_all(old(ctx).dir_set(), resolutions_view(items@).take(k)),
                #[trigger] resolutions_view(items@)[k],
            ),
{
    let ghost s0 = old(ctx).dir_set();
    let ghost iv = resolutions_view(items@);
    let n = items.len();
    let mut msgs: Vec<String> = Vec::new();
    let mut idx: usize = 0;
    while idx < n
        invariant
            0 <= idx <= n,
            n == items.len(),
            iv == resolutions_view(items@),
            ctx.wf(),
            ctx.buffer_view() == old(ctx).buffer_view(),
            ctx.dir_set() == spec_register_all(s0, iv.take(idx as int)),
            msgs.len() == idx,
            forall|k: int|
                0 <= k < idx ==> msgs.deep_view()[k] == spec_register_message(
                    spec_register_all(s0, iv.take(k)),
                    #[trigger] iv[k],
                ),
        decreases n - idx,
    {
        let ghost pre_msgs = msgs@;
        let item = &items[idx];
        proof {
            assert(iv[idx as int] == resolution_view(items@[idx as int]));
        }
        let msg: String = match &item.outcome {
            Ok(p) => {
                let is_new = ctx.register(p.as_str());
                if is_new {
                    String::from_str("Registered new path: ").concat(p.as_str())
                } else {
                    String::from_str("Already Registered: ").concat(p.as_str())
                }
            },
            Err(e) => {
                String::from_str("Cannot register path ").concat(item.given.as_str()).concat(
                    ": ",
                ).concat(e.as_str())
            },
        };
        msgs.push(msg);
        proof {
            assert(iv.take(idx as int + 1).drop_last() =~= iv.take(idx as int));
            assert(iv.take(idx as int + 1).last() == iv[idx as int]);
            assert(msgs@ == pre_msgs.push(msgs@[idx as int]));
            assert forall|k: int| 0 <= k < idx as int + 1 implies msgs.deep_view()[k]
                == spec_register_message(spec_register_all(s0, iv.take(k)), #[trigger] iv[k]) by {
                if k < idx as int {
                    assert(msgs@[k] == pre_msgs[k]);
                }
            }
        }
        idx = idx + 1;
    }
    proof {
        assert(iv.take(n as int) =~= iv);
    }
    msgs
}

/// The registry contents after removing each resolved path in order.
pub open spec fn spec_unregister_all(
    s: Set<Seq<char>>,
    items: Seq<(Seq<char>, Result<Seq<char>, Seq<char>>)>,
) -> Set<Seq<char>>
    decreases items.len(),
{
    if items.len() == 0 {
        s
    } else {
        let rest = spec_unregister_all(s, items.drop_last());
        match items.last().1 {
            Ok(p) => rest.remove(p),
            Err(_) => rest,
        }
    }
}

/// The message reported for one path during removal, given the registry
/// contents just before that path is handled.
pub open spec fn spec_unregister_message(
    reg: Set<Seq<char>>,
    item: (Seq<char>, Result<Seq<char>, Seq<char>>),
) -> Seq<char> {
    match item.1 {
        Ok(p) => if reg.contains(p) {
            "Removed path from registry: "@ + p
        } else {
            "Path not registered, cannot remove: "@ + p
        },
        Err(e) => "Cannot unregister path "@ + item.0 + ": "@ + e,
    }
}

/// Removes each resolved path in order and reports one message per path; a
/// path that failed to resolve or was never registered is reported and the
/// rest go on.
pub fn unregister_paths(ctx: &mut Context, items: &Vec<PathResolution>) -> (msgs: Vec<String>)
    requires
        old(ctx).wf(),
    ensures
        final(ctx).wf(),
        final(ctx).buffer_view() == old(ctx).buffer_view(),
        final(ctx).dir_set() == spec_unregister_all(old(ctx).dir_set(), resolutions_view(items@)),
        msgs.len() == items.len(),
        forall|k: int|
            0 <= k < items@.len() ==> msgs.deep_view()[k] == spec_unregister_message(
                spec_unregister_all(old(ctx).dir_set(), resolutions_view(items@).take(k)),
                #[trigger] resolutions_view(items@)[k],
            ),
{
    let ghost s0 = old(ctx).dir_set();
    let ghost iv = resolutions_view(items@);
    let n = items.len();
    let mut msgs: Vec<String> = Vec::new();
    let mut idx: usize = 0;
    while idx < n
        invariant
            0 <= idx <= n,
            n == items.len(),
            iv == resolutions_view(items@),
            ctx.wf(),
            ctx.buffer_view() == old(ctx).buffer_view(),
            ctx.dir_set() == spec_unregister_all(s0, iv.take(idx as int)),
            msgs.len() == idx,
            forall|k: int|
                0 <= k < idx ==> msgs.deep_view()[k] == spec_unregister_message(
                    spec_unregister_all(s0, iv.take(k)),
                    #[trigger] iv[k],
                ),
        decreases n - idx,
    {
        let ghost pre_msgs = msgs@;
        let item = &items[idx];
        proof {
            assert(iv[idx as int] == resolution_view(items@[idx as int]));
        }
        let msg: String = match &item.outcome {
            Ok(p) => {
                let was_present = ctx.unregister(p.as_str());
                if was_present {
                    String::from_str("Removed path from registry: ").concat(p.as_str())
                } else {
                    String::from_str("Path not registered, cannot remove: ").concat(p.as_str())
                }
            },
            Err(e) => {
                String::from_str("Cannot unregister path ").concat(item.given.as_str()).concat(
                    ": ",
                ).concat(e.as_str())
            },
        };
        msgs.push(msg);
        proof {
            assert(iv.take(idx as int + 1).drop_last() =~= iv.take(idx as int));
            assert(iv.take(idx as int + 1).last() == iv[idx as int]);
            assert(msgs@ == pre_msgs.push(msgs@[idx as int]));
            assert forall|k: int| 0 <= k < idx as int + 1 implies msgs.deep_view()[k]
                == spec_unregister_message(spec_unregister_all(s0, iv.take(k)), #[trigger] iv[k]) by {
                if k < idx as int {
                    assert(msgs@[k] == pre_msgs[k]);
                }
            }
        }
        idx = idx + 1;
    }
    proof {
        assert(iv.take(n as int) =~= iv);
    }
    msgs
}

} // verus!
