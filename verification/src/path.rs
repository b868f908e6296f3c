//! Paths as sequences of names, read from the root of the tree.
//!
//! A path is written with `/` between its names. Empty names and the name `.`
//! carry no meaning and are dropped when text is read, so `/a//b/./c/` and
//! `a/b/c` are the same path. Every path is taken from the root: the library
//! knows no working directory.

use crate::order::{
    agree_to, lemma_path_before_irreflexive, lemma_path_before_transitive, name_before,
    path_before, rank_names, Rank,
};
use vstd::prelude::*;
use vstd::string::StringExecFns;
use vstd::string::StrSliceExecFns;

verus! {

/// A path as the contracts see it: its names, outermost first.
pub type Names = Seq<Seq<char>>;

/// The character that separates names in a written path.
pub open spec fn separator() -> char {
    '/'
}

/// Whether `name` can be one name of a path: it is not empty, is not `.`, and
/// holds no separator.
pub open spec fn is_name(name: Seq<char>) -> bool {
    &&& name.len() > 0
    &&& name != seq!['.']
    &&& forall|i: int| 0 <= i < name.len() ==> name[i] != separator()
}

/// Whether every element of `p` can be a name.
pub open spec fn all_names(p: Names) -> bool {
    forall|i: int| 0 <= i < p.len() ==> is_name(#[trigger] p[i])
}

/// Whether `p` begins with all the names of `prefix`.
pub open spec fn starts_with(p: Names, prefix: Names) -> bool {
    prefix.len() <= p.len() && p.subrange(0, prefix.len() as int) == prefix
}

/// The path `q`, which begins with `from`, with `to` in the place of `from`.
pub open spec fn rebased(q: Names, from: Names, to: Names) -> Names {
    to + q.skip(from.len() as int)
}

/// A rebased path begins with its new beginning, and rebasing it back gives
/// the path that was rebased.
pub proof fn lemma_rebased(q: Names, from: Names, to: Names)
    requires
        starts_with(q, from),
    ensures
        starts_with(rebased(q, from, to), to),
        rebased(rebased(q, from, to), to, from) == q,
        rebased(q, from, to).len() == q.len() - from.len() + to.len(),
{
    let r = rebased(q, from, to);
    assert(r.subrange(0, to.len() as int) =~= to);
    assert(r.skip(to.len() as int) =~= q.skip(from.len() as int));
    assert(from + q.skip(from.len() as int) =~= q) by {
        assert(q.subrange(0, from.len() as int) == from);
    }
}

/// The holder of a path that lies under `from` begins with `from` too, and
/// rebasing the holder gives the holder of the rebased path.
pub proof fn lemma_rebased_parent(q: Names, from: Names, to: Names)
    requires
        starts_with(q, from),
        q.len() > from.len(),
    ensures
        starts_with(q.drop_last(), from),
        rebased(q.drop_last(), from, to) == rebased(q, from, to).drop_last(),
{
    assert(q.drop_last().subrange(0, from.len() as int) =~= q.subrange(0, from.len() as int));
    assert(rebased(q.drop_last(), from, to) =~= rebased(q, from, to).drop_last());
}

/// A path begins with whatever its holder begins with.
pub proof fn lemma_starts_with_parent(q: Names, p: Names)
    requires
        q.len() > 0,
        starts_with(q.drop_last(), p),
    ensures
        starts_with(q, p),
{
    assert(q.subrange(0, p.len() as int) =~= q.drop_last().subrange(0, p.len() as int));
}

/// The run of characters after the last separator of `s`: the name that is
/// still being read when `s` ends.
pub open spec fn open_name(s: Seq<char>) -> Seq<char>
    decreases s.len(),
{
    if s.len() == 0 {
        Seq::empty()
    } else if s.last() == separator() {
        Seq::empty()
    } else {
        open_name(s.drop_last()).push(s.last())
    }
}

/// `name` as a list of names: itself where it can be a name, nothing otherwise.
pub open spec fn kept(name: Seq<char>) -> Names {
    if name.len() > 0 && name != seq!['.'] {
        seq![name]
    } else {
        Seq::empty()
    }
}

/// The names of `s` that a separator has closed, in the order in which they
/// are written.
pub open spec fn closed_names(s: Seq<char>) -> Names
    decreases s.len(),
{
    if s.len() == 0 {
        Seq::empty()
    } else if s.last() == separator() {
        closed_names(s.drop_last()) + kept(open_name(s.drop_last()))
    } else {
        closed_names(s.drop_last())
    }
}

/// The path that the text `s` writes.
pub open spec fn names_of(s: Seq<char>) -> Names {
    closed_names(s) + kept(open_name(s))
}

/// The names of `p`, each behind a separator.
pub open spec fn written_names(p: Names) -> Seq<char>
    decreases p.len(),
{
    if p.len() == 0 {
        Seq::empty()
    } else {
        written_names(p.drop_last()).push(separator()) + p.last()
    }
}

/// The text that writes `p`: a separator before each name, and a single
/// separator for the root.
pub open spec fn written(p: Names) -> Seq<char> {
    if p.len() == 0 {
        seq![separator()]
    } else {
        written_names(p)
    }
}

/// Text that ends in a name without separators: the name is added to the
/// name that is being read, and no further name is closed.
pub proof fn lemma_name_read(s: Seq<char>, name: Seq<char>)
    requires
        forall|i: int| 0 <= i < name.len() ==> name[i] != separator(),
    ensures
        open_name(s + name) == open_name(s) + name,
        closed_names(s + name) == closed_names(s),
    decreases name.len(),
{
    if name.len() == 0 {
        assert(s + name =~= s);
        assert(open_name(s) + name =~= open_name(s));
    } else {
        let shorter = name.drop_last();
        lemma_name_read(s, shorter);
        assert((s + name).drop_last() =~= s + shorter);
        assert((s + name).last() == name.last());
        assert(open_name(s + shorter).push(name.last()) =~= open_name(s) + name);
    }
}

/// What is written of a path is read back as that path: writing the names
/// of a path and reading the text gives the path again.
pub proof fn lemma_written_reads_back(p: Names)
    requires
        all_names(p),
    ensures
        names_of(written(p)) == p,
    decreases p.len(),
{
    if p.len() == 0 {
        let s = seq![separator()];
        let none = Seq::<char>::empty();
        assert(s.drop_last() =~= none);
        assert(s.last() == separator());
        assert(open_name(none) =~= none);
        assert(closed_names(none) =~= Names::empty());
        assert(kept(none) =~= Names::empty());
        assert(closed_names(s) =~= Names::empty());
        assert(open_name(s) =~= none);
        assert(names_of(s) =~= p);
    } else {
        let front = p.drop_last();
        let name = p.last();
        let begun = written_names(front).push(separator());
        assert(is_name(p[p.len() - 1]));
        assert(begun.drop_last() =~= written_names(front));
        lemma_name_read(begun, name);
        assert(open_name(begun) + name =~= name);
        assert(begun.last() == separator());
        assert(open_name(begun) =~= Seq::<char>::empty());
        assert(closed_names(begun) == closed_names(written_names(front)) + kept(
            open_name(written_names(front)),
        ));
        if front.len() == 0 {
            let none = Seq::<char>::empty();
            assert(written_names(front) =~= none);
            assert(open_name(none) =~= none);
            assert(closed_names(none) =~= Names::empty());
            assert(kept(none) =~= Names::empty());
            assert(closed_names(begun) =~= Names::empty());
        } else {
            assert(all_names(front)) by {
                assert forall|i: int| 0 <= i < front.len() implies is_name(#[trigger] front[i]) by {
                    assert(front[i] == p[i]);
                }
            }
            lemma_written_reads_back(front);
            assert(written(front) == written_names(front));
        }
        assert(names_of(written(p)) =~= front.push(name));
        assert(front.push(name) =~= p);
    }
}

/// A path in the tree.
#[derive(Debug, PartialEq, Eq)]
pub struct TreePath {
    parts: Vec<String>,
}

impl View for TreePath {
    type V = Names;

    closed spec fn view(&self) -> Names {
        names_in(self.parts@)
    }
}

impl Clone for TreePath {
    fn clone(&self) -> (copy: Self)
        ensures
            copy@ == self@,
    {
        let mut parts: Vec<String> = Vec::new();
        let mut i: usize = 0;
        while i < self.parts.len()
            invariant
                i <= self.parts@.len(),
                parts@.len() == i,
                forall|j: int| 0 <= j < i ==> parts@[j]@ == self.parts@[j]@,
            decreases self.parts@.len() - i,
        {
            parts.push(self.parts[i].clone());
            i += 1;
        }
        proof {
            use_type_invariant(self);
            assert(names_in(parts@) =~= self@);
        }
        TreePath { parts }
    }
}

impl TreePath {
    /// What holds of every path: each of its names can be a name.
    #[verifier::type_invariant]
    pub closed spec fn sound(&self) -> bool {
        all_names(self@)
    }

    /// Each name of a path can be a name, so that the path is read back from
    /// what is written of it.
    pub proof fn lemma_sound(&self)
        requires
            self.sound(),
        ensures
            all_names(self@),
            names_of(written(self@)) == self@,
    {
        lemma_written_reads_back(self@);
    }

    /// The root of the tree.
    pub fn root() -> (p: TreePath)
        ensures
            p@ == Names::empty(),
    {
        let p = TreePath { parts: Vec::new() };
        assert(p@ =~= Names::empty());
        p
    }

    /// Reads a path from text: the names between the separators, without the
    /// empty ones and without `.`.
    pub fn parse(text: &str) -> (p: TreePath)
        ensures
            p@ == names_of(text@),
    {
        let n = text.unicode_len();
        let mut parts: Vec<String> = Vec::new();
        let mut start: usize = 0;
        let mut i: usize = 0;
        let ghost s = text@;
        while i < n
            invariant
                s == text@,
                n == s.len(),
                start <= i <= n,
                names_in(parts@) == closed_names(s.take(i as int)),
                all_names(names_in(parts@)),
                s.subrange(start as int, i as int) == open_name(s.take(i as int)),
                forall|j: int| start <= j < i ==> s[j] != separator(),
            decreases n - i,
        {
            let c = text.get_char(i);
            proof {
                assert(s.take(i + 1).drop_last() =~= s.take(i as int));
                assert(s.take(i + 1).last() == c);
            }
            if c == '/' {
                let ghost before = names_in(parts@);
                let ghost name = s.subrange(start as int, i as int);
                if i > start && !(i - start == 1 && text.get_char(start) == '.') {
                    let piece = text.substring_char(start, i);
                    parts.push(String::from_str(piece));
                    proof {
                        assert(name[0] == s[start as int]);
                        assert(name != seq!['.']) by {
                            if name == seq!['.'] {
                                assert(name.len() == 1);
                                assert(seq!['.'][0] == '.');
                            }
                        }
                        assert(names_in(parts@) =~= before + seq![name]);
                        assert(is_name(name));
                    }
                } else {
                    proof {
                        if i > start {
                            assert(name.len() == 1);
                            assert(name[0] == '.');
                            assert(name =~= seq!['.']);
                        }
                        assert(kept(name) =~= Names::empty());
                        assert(names_in(parts@) =~= before + kept(name));
                    }
                }
                start = i + 1;
                proof {
                    assert(s.subrange(start as int, start as int) =~= Seq::<char>::empty());
                }
            } else {
                proof {
                    assert(s.subrange(start as int, i + 1) =~= s.subrange(
                        start as int,
                        i as int,
                    ).push(c));
                }
            }
            i += 1;
        }
        proof {
            assert(s.take(n as int) =~= s);
        }
        let ghost before = names_in(parts@);
        let ghost name = s.subrange(start as int, n as int);
        if n > start && !(n - start == 1 && text.get_char(start) == '.') {
            let piece = text.substring_char(start, n);
            parts.push(String::from_str(piece));
            proof {
                assert(name[0] == s[start as int]);
                assert(name != seq!['.']) by {
                    if name == seq!['.'] {
                        assert(name.len() == 1);
                        assert(seq!['.'][0] == '.');
                    }
                }
                assert(names_in(parts@) =~= before + seq![name]);
                assert(is_name(name));
            }
        } else {
            proof {
                if n > start {
                    assert(name.len() == 1);
                    assert(name[0] == '.');
                    assert(name =~= seq!['.']);
                }
                assert(kept(name) =~= Names::empty());
                assert(names_in(parts@) =~= before + kept(name));
            }
        }
        TreePath { parts }
    }

    /// The number of names in the path.
    pub fn len(&self) -> (n: usize)
        ensures
            n == self@.len(),
    {
        self.parts.len()
    }

    /// Whether the path is the root.
    pub fn is_root(&self) -> (b: bool)
        ensures
            b == (self@.len() == 0),
    {
        self.parts.len() == 0
    }

    /// The name at place `i`, counted from the root.
    pub fn name(&self, i: usize) -> (name: &str)
        requires
            i < self@.len(),
        ensures
            name@ == self@[i as int],
    {
        self.parts[i].as_str()
    }

    /// The last name of the path, which the root does not have.
    pub fn file_name(&self) -> (name: Option<&str>)
        ensures
            self@.len() == 0 ==> name is None,
            self@.len() > 0 ==> name is Some && name->0@ == self@.last(),
    {
        if self.parts.len() == 0 {
            None
        } else {
            Some(self.parts[self.parts.len() - 1].as_str())
        }
    }

    /// The path that holds this one, which the root does not have.
    pub fn parent(&self) -> (p: Option<TreePath>)
        ensures
            self@.len() == 0 ==> p is None,
            self@.len() > 0 ==> p is Some && p->0@ == self@.drop_last(),
    {
        if self.parts.len() == 0 {
            None
        } else {
            Some(self.first_names(self.parts.len() - 1))
        }
    }

    /// The path made of the first `n` names of this one.
    pub fn first_names(&self, n: usize) -> (p: TreePath)
        requires
            n <= self@.len(),
        ensures
            p@ == self@.take(n as int),
    {
        proof {
            use_type_invariant(self);
        }
        let mut parts: Vec<String> = Vec::new();
        let mut i: usize = 0;
        while i < n
            invariant
                i <= n <= self.parts@.len(),
                parts@.len() == i,
                forall|j: int| 0 <= j < i ==> parts@[j]@ == self.parts@[j]@,
            decreases n - i,
        {
            parts.push(self.parts[i].clone());
            i += 1;
        }
        proof {
            assert(names_in(parts@) =~= self@.take(n as int));
        }
        TreePath { parts }
    }

    /// This path followed by the names of `rest`.
    pub fn join(&self, rest: &TreePath) -> (p: TreePath)
        ensures
            p@ == self@ + rest@,
    {
        proof {
            use_type_invariant(self);
            use_type_invariant(rest);
        }
        let mut parts: Vec<String> = Vec::new();
        let mut i: usize = 0;
        while i < self.parts.len()
            invariant
                i <= self.parts@.len(),
                parts@.len() == i,
                forall|j: int| 0 <= j < i ==> parts@[j]@ == self.parts@[j]@,
            decreases self.parts@.len() - i,
        {
            parts.push(self.parts[i].clone());
            i += 1;
        }
        let mut k: usize = 0;
        while k < rest.parts.len()
            invariant
                k <= rest.parts@.len(),
                parts@.len() == self.parts@.len() + k,
                forall|j: int| 0 <= j < self.parts@.len() ==> parts@[j]@ == self.parts@[j]@,
                forall|j: int| 0 <= j < k ==> parts@[self.parts@.len() + j]@ == rest.parts@[j]@,
            decreases rest.parts@.len() - k,
        {
            parts.push(rest.parts[k].clone());
            k += 1;
        }
        proof {
            assert(names_in(parts@) =~= self@ + rest@);
        }
        TreePath { parts }
    }

    /// This path followed by the names that `text` writes.
    pub fn join_text(&self, text: &str) -> (p: TreePath)
        ensures
            p@ == self@ + names_of(text@),
    {
        let rest = TreePath::parse(text);
        self.join(&rest)
    }

    /// Whether this path begins with all the names of `base`.
    pub fn starts_with(&self, base: &TreePath) -> (b: bool)
        ensures
            b == starts_with(self@, base@),
    {
        if base.parts.len() > self.parts.len() {
            return false;
        }
        let mut i: usize = 0;
        while i < base.parts.len()
            invariant
                i <= base.parts@.len() <= self.parts@.len(),
                forall|j: int| 0 <= j < i ==> self.parts@[j]@ == base.parts@[j]@,
            decreases base.parts@.len() - i,
        {
            if self.parts[i] != base.parts[i] {
                proof {
                    assert(self@.subrange(0, base@.len() as int)[i as int] == self@[i as int]);
                }
                return false;
            }
            i += 1;
        }
        proof {
            assert(self@.subrange(0, base@.len() as int) =~= base@);
        }
        true
    }

    /// Whether the two paths have the same names.
    pub fn same_as(&self, other: &TreePath) -> (b: bool)
        ensures
            b == (self@ == other@),
    {
        if self.parts.len() != other.parts.len() {
            return false;
        }
        let b = self.starts_with(other);
        proof {
            assert(self@.subrange(0, self@.len() as int) =~= self@);
        }
        b
    }

    /// The names that remain when `base` is taken from the front of this path;
    /// nothing where this path does not begin with `base`.
    pub fn strip_prefix(&self, base: &TreePath) -> (rest: Option<TreePath>)
        ensures
            rest is Some <==> starts_with(self@, base@),
            rest is Some ==> rest->0@ == self@.skip(base@.len() as int),
    {
        if !self.starts_with(base) {
            return None;
        }
        proof {
            use_type_invariant(self);
        }
        let mut parts: Vec<String> = Vec::new();
        let mut i: usize = base.parts.len();
        while i < self.parts.len()
            invariant
                base.parts@.len() <= i <= self.parts@.len(),
                parts@.len() == i - base.parts@.len(),
                forall|j: int|
                    0 <= j < parts@.len() ==> parts@[j]@ == self.parts@[base.parts@.len() + j]@,
            decreases self.parts@.len() - i,
        {
            parts.push(self.parts[i].clone());
            i += 1;
        }
        proof {
            assert(names_in(parts@) =~= self@.skip(base@.len() as int));
        }
        Some(TreePath { parts })
    }

    /// Compares this path with `other` in the order of a walk.
    pub fn rank(&self, other: &TreePath) -> (r: Rank)
        ensures
            r == Rank::Before <==> path_before(self@, other@),
            r == Rank::Same <==> self@ == other@,
            r == Rank::After <==> path_before(other@, self@),
    {
        let mut i: usize = 0;
        let mut found = Rank::Same;
        while i < self.parts.len() && i < other.parts.len()
            invariant_except_break
                found == Rank::Same,
            invariant
                agree_to(self@, other@, i as int),
                i <= self.parts@.len(),
            ensures
                found == Rank::Same ==> !(i < self.parts@.len() && i < other.parts@.len()),
                found == Rank::Before ==> i < self@.len() && i < other@.len() && name_before(
                    self@[i as int],
                    other@[i as int],
                ),
                found == Rank::After ==> i < self@.len() && i < other@.len() && name_before(
                    other@[i as int],
                    self@[i as int],
                ),
            decreases self.parts@.len() - i,
        {
            let r = rank_names(self.parts[i].as_str(), other.parts[i].as_str());
            if r != Rank::Same {
                found = r;
                break ;
            }
            i += 1;
        }
        proof {
            let k = i as int;
            assert(agree_to(other@, self@, k));
            if found == Rank::Same {
                if k < other@.len() {
                    lemma_paths_differ(self@, other@, k);
                } else if k < self@.len() {
                    lemma_paths_differ(other@, self@, k);
                } else {
                    assert(self@ =~= other@);
                    lemma_path_before_irreflexive(self@);
                }
            } else if found == Rank::Before {
                lemma_paths_differ(self@, other@, k);
            } else {
                lemma_paths_differ(other@, self@, k);
            }
        }
        if found != Rank::Same {
            found
        } else if i < other.parts.len() {
            Rank::Before
        } else if i < self.parts.len() {
            Rank::After
        } else {
            Rank::Same
        }
    }

    /// Writes the path as text: a separator before each name, and a single
    /// separator for the root.
    pub fn render(&self) -> (text: String)
        ensures
            text@ == written(self@),
    {
        if self.parts.len() == 0 {
            proof {
                reveal_strlit("/");
                assert("/"@ =~= seq![separator()]);
            }
            return String::from_str("/");
        }
        let mut text = String::new();
        let mut i: usize = 0;
        while i < self.parts.len()
            invariant
                i <= self.parts@.len(),
                text@ == written_names(self@.take(i as int)),
            decreases self.parts@.len() - i,
        {
            proof {
                reveal_strlit("/");
                assert(self@.take(i + 1).drop_last() =~= self@.take(i as int));
                assert("/"@ =~= seq![separator()]);
            }
            text.append("/");
            text.append(self.parts[i].as_str());
            proof {
                assert(text@ =~= written_names(self@.take(i as int)).push(separator())
                    + self@[i as int]);
            }
            i += 1;
        }
        proof {
            assert(self@.take(self@.len() as int) =~= self@);
        }
        text
    }
}

/// The names that a list of strings holds.
pub open spec fn names_in(parts: Seq<String>) -> Names {
    Seq::new(parts.len(), |i: int| parts[i]@)
}

/// Where `a` and `b` agree to place `k` and `a` ends or has the earlier name
/// there, `a` comes before `b`, `b` does not come before `a`, and the two
/// differ.
proof fn lemma_paths_differ(a: Names, b: Names, k: int)
    requires
        agree_to(a, b, k),
        k < b.len(),
        k == a.len() || name_before(a[k], b[k]),
    ensures
        path_before(a, b),
        !path_before(b, a),
        a != b,
{
    if path_before(b, a) {
        lemma_path_before_transitive(a, b, a);
        lemma_path_before_irreflexive(a);
    }
    if a == b {
        lemma_path_before_irreflexive(a);
    }
}

} // verus!
