//! Broadcast paths: slash-separated names, matched part by part.

use vstd::prelude::*;
use vstd::string::*;
use vstd::utf8::encode_utf8;

verus! {

/// Maximum number of parts in a path that an origin accepts.
pub const MAX_PARTS: usize = 32;

/// The non-empty segments of `s` between slashes, where `part` is the segment read so
/// far.
pub open spec fn split_from(s: Seq<char>, part: Seq<char>) -> Seq<Seq<char>>
    decreases s.len(),
{
    if s.len() == 0 {
        if part.len() == 0 {
            Seq::empty()
        } else {
            seq![part]
        }
    } else if s[0] == '/' {
        (if part.len() == 0 {
            Seq::empty()
        } else {
            seq![part]
        }) + split_from(s.skip(1), Seq::empty())
    } else {
        split_from(s.skip(1), part.push(s[0]))
    }
}

/// The parts of the path written `s`: its non-empty segments between slashes.
pub open spec fn parts_of(s: Seq<char>) -> Seq<Seq<char>> {
    split_from(s, Seq::empty())
}

/// A part is not empty and holds no slash.
pub open spec fn valid_part(part: Seq<char>) -> bool {
    part.len() > 0 && forall|i: int| 0 <= i < part.len() ==> #[trigger] part[i] != '/'
}

/// Every part is valid.
pub open spec fn valid_parts(parts: Seq<Seq<char>>) -> bool {
    forall|i: int| 0 <= i < parts.len() ==> #[trigger] valid_part(parts[i])
}

/// How a path is written: its parts, separated by single slashes.
pub open spec fn text(parts: Seq<Seq<char>>) -> Seq<char>
    decreases parts.len(),
{
    if parts.len() == 0 {
        Seq::empty()
    } else if parts.len() == 1 {
        parts[0]
    } else {
        parts[0] + seq!['/'] + text(parts.skip(1))
    }
}

/// The lexicographic order of strings by code point, which is the order of their
/// UTF-8 bytes.
pub open spec fn text_lt(a: Seq<char>, b: Seq<char>) -> bool
    decreases a.len(),
{
    if b.len() == 0 {
        false
    } else if a.len() == 0 {
        true
    } else {
        (a[0] as int) < (b[0] as int) || (a[0] == b[0] && text_lt(a.skip(1), b.skip(1)))
    }
}

/// The order in which paths sort: as their text does.
pub open spec fn path_lt(a: Seq<Seq<char>>, b: Seq<Seq<char>>) -> bool {
    text_lt(text(a), text(b))
}

/// How two paths compare.
#[derive(Clone, Copy, PartialEq, Eq, Structural)]
pub enum Rank {
    /// The first sorts before the second.
    Before,
    /// The two are the same.
    Same,
    /// The first sorts after the second.
    After,
}

proof fn lemma_text_lt_irreflexive(a: Seq<char>)
    ensures
        !text_lt(a, a),
    decreases a.len(),
{
    if a.len() > 0 {
        lemma_text_lt_irreflexive(a.skip(1));
    }
}

proof fn lemma_text_lt_transitive(a: Seq<char>, b: Seq<char>, c: Seq<char>)
    requires
        text_lt(a, b),
        text_lt(b, c),
    ensures
        text_lt(a, c),
    decreases a.len(),
{
    if a.len() > 0 && a[0] == b[0] && b[0] == c[0] {
        lemma_text_lt_transitive(a.skip(1), b.skip(1), c.skip(1));
    }
}

/// A path is before itself never, and the order is transitive.
pub proof fn law_path_order_is_strict(a: Seq<Seq<char>>, b: Seq<Seq<char>>, c: Seq<Seq<char>>)
    ensures
        !path_lt(a, a),
        path_lt(a, b) && path_lt(b, c) ==> path_lt(a, c),
        path_lt(a, b) ==> !path_lt(b, a),
{
    lemma_text_lt_irreflexive(text(a));
    if path_lt(a, b) && path_lt(b, c) {
        lemma_text_lt_transitive(text(a), text(b), text(c));
    }
    if path_lt(a, b) && path_lt(b, a) {
        lemma_text_lt_transitive(text(a), text(b), text(a));
    }
}

proof fn lemma_split_valid(s: Seq<char>, part: Seq<char>)
    requires
        forall|i: int| 0 <= i < part.len() ==> #[trigger] part[i] != '/',
    ensures
        valid_parts(split_from(s, part)),
    decreases s.len(),
{
    if s.len() > 0 {
        if s[0] == '/' {
            lemma_split_valid(s.skip(1), Seq::empty());
        } else {
            lemma_split_valid(s.skip(1), part.push(s[0]));
        }
    }
}

/// Reading on from inside the first part of a text.
proof fn lemma_split_text(read: Seq<char>, rest: Seq<char>, parts: Seq<Seq<char>>)
    requires
        valid_part(read + rest),
        valid_parts(parts),
    ensures
        split_from(
            if parts.len() == 0 {
                rest
            } else {
                rest + seq!['/'] + text(parts)
            },
            read,
        ) == seq![read + rest] + parts,
    decreases parts.len(), 1int, rest.len(),
{
    let s = if parts.len() == 0 {
        rest
    } else {
        rest + seq!['/'] + text(parts)
    };
    let whole = read + rest;
    if rest.len() > 0 {
        let c = rest[0];
        assert(whole[read.len() as int] == c);
        assert(s[0] == c && c != '/');
        assert(read.push(c) + rest.skip(1) =~= whole);
        lemma_split_text(read.push(c), rest.skip(1), parts);
        assert(s.skip(1) =~= if parts.len() == 0 {
            rest.skip(1)
        } else {
            rest.skip(1) + seq!['/'] + text(parts)
        });
    } else {
        assert(whole =~= read);
        if parts.len() == 0 {
            assert(seq![read] + parts =~= seq![read]);
        } else {
            assert(s[0] == '/');
            assert(s.skip(1) =~= text(parts));
            lemma_text_split(parts);
            assert(split_from(s, read) =~= seq![read] + parts);
        }
    }
}

/// Splitting the text of a path gives the path back.
proof fn lemma_text_split(parts: Seq<Seq<char>>)
    requires
        valid_parts(parts),
    ensures
        parts_of(text(parts)) == parts,
    decreases parts.len(), 0int, 0nat,
{
    if parts.len() == 0 {
        assert(parts_of(text(parts)) =~= parts);
    } else {
        let tail = parts.skip(1);
        assert(valid_part(parts[0]));
        assert(Seq::<char>::empty() + parts[0] =~= parts[0]);
        assert forall|i: int| 0 <= i < tail.len() implies #[trigger] valid_part(tail[i]) by {
            assert(valid_part(parts[i + 1]));
        }
        lemma_split_text(Seq::empty(), parts[0], tail);
        assert(seq![parts[0]] + tail =~= parts);
    }
}

/// Reading a written path gives the path back.
pub proof fn law_text_round_trip(parts: Seq<Seq<char>>)
    requires
        valid_parts(parts),
    ensures
        parts_of(text(parts)) == parts,
{
    lemma_text_split(parts);
}

/// The parts of any string are valid.
pub proof fn law_parsed_paths_are_valid(s: Seq<char>)
    ensures
        valid_parts(parts_of(s)),
{
    lemma_split_valid(s, Seq::empty());
}

/// Distinct paths are written differently, so exactly one of two distinct paths sorts
/// before the other.
pub proof fn law_path_order_is_total(a: Seq<Seq<char>>, b: Seq<Seq<char>>)
    requires
        valid_parts(a),
        valid_parts(b),
    ensures
        a == b || path_lt(a, b) || path_lt(b, a),
{
    lemma_text_lt_total(text(a), text(b));
    lemma_text_split(a);
    lemma_text_split(b);
}

proof fn lemma_text_lt_total(a: Seq<char>, b: Seq<char>)
    ensures
        a == b || text_lt(a, b) || text_lt(b, a),
    decreases a.len(),
{
    if a.len() == 0 || b.len() == 0 {
        if a.len() == 0 && b.len() == 0 {
            assert(a =~= b);
        }
    } else if a[0] == b[0] {
        lemma_text_lt_total(a.skip(1), b.skip(1));
        if a.skip(1) == b.skip(1) {
            assert(a =~= seq![a[0]] + a.skip(1));
            assert(b =~= seq![b[0]] + b.skip(1));
        }
    }
}

/// Read the characters of a string.
fn chars_of(s: &str) -> (r: Vec<char>)
    ensures
        r@ == s@,
{
    let mut r: Vec<char> = Vec::new();
    for c in it: s.chars()
        invariant
            it.seq() == s@,
            r@ == s@.take(it.index() as int),
    {
        r.push(c);
    }
    assert(s@.take(s@.len() as int) =~= s@);
    r
}

/// A broadcast path: a sequence of non-empty parts, written with single slashes
/// between them and none at the ends.
pub struct Path {
    parts: Vec<String>,
}

impl View for Path {
    type V = Seq<Seq<char>>;

    closed spec fn view(&self) -> Seq<Seq<char>> {
        Seq::new(self.parts@.len(), |i: int| self.parts@[i]@)
    }
}

impl Path {
    #[verifier::type_invariant]
    spec fn inv(self) -> bool {
        valid_parts(self@)
    }

    /// The parts of a path are valid.
    pub fn validity(&self)
        ensures
            valid_parts(self@),
    {
        proof {
            use_type_invariant(self);
        }
    }

    /// Parse a path. Leading, trailing and repeated slashes are dropped.
    pub fn new(s: &str) -> (r: Self)
        ensures
            r@ == parts_of(s@),
    {
        let chars = chars_of(s);
        let mut parts: Vec<String> = Vec::new();
        let mut from: usize = 0;
        let mut i: usize = 0;
        let ghost view = Seq::<Seq<char>>::empty();
        proof {
            assert(s@.subrange(0, 0) =~= Seq::<char>::empty());
            assert(s@.skip(0) =~= s@);
            assert(view + split_from(s@, Seq::empty()) =~= parts_of(s@));
        }
        while i < chars.len()
            invariant
                chars@ == s@,
                from <= i <= chars@.len(),
                view == Seq::new(parts@.len(), |k: int| parts@[k]@),
                view + split_from(s@.skip(i as int), s@.subrange(from as int, i as int))
                    == parts_of(s@),
            decreases chars@.len() - i,
        {
            let ghost before = view;
            let ghost part = s@.subrange(from as int, i as int);
            proof {
                assert(s@.skip(i as int).skip(1) =~= s@.skip(i + 1));
                assert(s@.skip(i as int)[0] == chars@[i as int]);
            }
            if chars[i] == '/' {
                if from < i {
                    parts.push(s.substring_char(from, i).to_owned());
                    proof {
                        view = before.push(part);
                        assert(view =~= Seq::new(parts@.len(), |k: int| parts@[k]@));
                    }
                }
                from = i + 1;
                proof {
                    assert(s@.subrange(from as int, from as int) =~= Seq::<char>::empty());
                    assert(view + split_from(s@.skip(i + 1), Seq::empty()) =~= before + split_from(
                        s@.skip(i as int),
                        part,
                    ));
                }
            } else {
                assert(s@.subrange(from as int, i + 1) =~= part.push(chars@[i as int]));
            }
            i = i + 1;
        }
        assert(s@.skip(i as int) =~= Seq::<char>::empty());
        if from < i {
            parts.push(s.substring_char(from, i).to_owned());
        }
        proof {
            assert(Seq::new(parts@.len(), |k: int| parts@[k]@) =~= parts_of(s@));
            law_parsed_paths_are_valid(s@);
        }
        Path { parts }
    }

    /// The empty path, which every path has as a prefix.
    pub fn empty() -> (r: Self)
        ensures
            r@ == Seq::<Seq<char>>::empty(),
    {
        let parts: Vec<String> = Vec::new();
        assert(Seq::new(parts@.len(), |k: int| parts@[k]@) =~= Seq::<Seq<char>>::empty());
        Path { parts }
    }

    /// How the path is written.
    pub fn as_str(&self) -> (r: String)
        ensures
            r@ == text(self@),
    {
        let mut r = String::new();
        let mut i: usize = self.parts.len();
        proof {
            assert(self@.skip(i as int) =~= Seq::<Seq<char>>::empty());
        }
        while i > 0
            invariant
                i <= self.parts@.len(),
                r@ == text(self@.skip(i as int)),
            decreases i,
        {
            let ghost after = self@.skip(i as int);
            i = i - 1;
            proof {
                assert(self@.skip(i as int).skip(1) =~= after);
                assert(self@.skip(i as int)[0] == self.parts@[i as int]@);
                reveal_strlit("/");
                assert("/"@ =~= seq!['/']);
            }
            let mut head = self.parts[i].clone();
            if i + 1 < self.parts.len() {
                head.append("/");
                head.append(r.as_str());
            }
            r = head;
        }
        assert(self@.skip(0) =~= self@);
        r
    }

    /// Whether this is the empty path.
    pub fn is_empty(&self) -> (r: bool)
        ensures
            r == (self@.len() == 0),
    {
        self.parts.len() == 0
    }

    /// The number of parts.
    pub fn part_count(&self) -> (r: usize)
        ensures
            r == self@.len(),
    {
        self.parts.len()
    }

    /// One part, by index.
    pub fn part(&self, i: usize) -> (r: &String)
        requires
            i < self@.len(),
        ensures
            r@ == self@[i as int],
    {
        &self.parts[i]
    }

    /// The path below this one.
    pub fn join(&self, other: &Path) -> (r: Path)
        ensures
            r@ == self@ + other@,
    {
        proof {
            use_type_invariant(self);
            use_type_invariant(other);
        }
        let mut parts: Vec<String> = Vec::new();
        let mut i: usize = 0;
        while i < self.parts.len()
            invariant
                i <= self.parts@.len(),
                parts@.len() == i,
                forall|k: int| 0 <= k < i ==> (#[trigger] parts@[k])@ == self@[k],
            decreases self.parts@.len() - i,
        {
            parts.push(self.parts[i].clone());
            i = i + 1;
        }
        let mut j: usize = 0;
        while j < other.parts.len()
            invariant
                i == self.parts@.len(),
                j <= other.parts@.len(),
                parts@.len() == i + j,
                forall|k: int| 0 <= k < parts@.len() ==> (#[trigger] parts@[k])@ == (self@ + other@)[k],
            decreases other.parts@.len() - j,
        {
            parts.push(other.parts[j].clone());
            j = j + 1;
        }
        proof {
            assert(Seq::new(parts@.len(), |k: int| parts@[k]@) =~= self@ + other@);
            assert forall|k: int| 0 <= k < (self@ + other@).len() implies #[trigger] valid_part(
                (self@ + other@)[k],
            ) by {
                if k < self@.len() {
                    assert(valid_part(self@[k]));
                } else {
                    assert(valid_part(other@[k - self@.len()]));
                }
            }
        }
        Path { parts }
    }

    /// The path one part below this one.
    pub fn child(&self, part: &String) -> (r: Path)
        requires
            valid_part(part@),
        ensures
            r@ == self@.push(part@),
    {
        let mut parts: Vec<String> = Vec::new();
        parts.push(part.clone());
        assert(Seq::new(parts@.len(), |k: int| parts@[k]@) =~= seq![part@]);
        let rest = Path { parts };
        let r = self.join(&rest);
        assert(self@ + seq![part@] =~= self@.push(part@));
        r
    }

    /// The path from part `n` on.
    pub fn skip(&self, n: usize) -> (r: Path)
        requires
            n <= self@.len(),
        ensures
            r@ == self@.skip(n as int),
    {
        proof {
            use_type_invariant(self);
        }
        let mut parts: Vec<String> = Vec::new();
        let mut i: usize = n;
        while i < self.parts.len()
            invariant
                n <= i <= self.parts@.len(),
                parts@.len() == i - n,
                forall|k: int| 0 <= k < parts@.len() ==> (#[trigger] parts@[k])@ == self@[n + k],
            decreases self.parts@.len() - i,
        {
            parts.push(self.parts[i].clone());
            i = i + 1;
        }
        proof {
            assert(Seq::new(parts@.len(), |k: int| parts@[k]@) =~= self@.skip(n as int));
            assert forall|k: int| 0 <= k < self@.skip(n as int).len() implies #[trigger] valid_part(
                self@.skip(n as int)[k],
            ) by {
                assert(valid_part(self@[n + k]));
            }
        }
        Path { parts }
    }

    /// Whether `prefix` is this path or one above it. Only whole parts match: `foo` is
    /// no prefix of `foobar`.
    pub fn has_prefix(&self, prefix: &Path) -> (r: bool)
        ensures
            r == prefix@.is_prefix_of(self@),
    {
        if prefix.parts.len() > self.parts.len() {
            return false;
        }
        let mut i: usize = 0;
        while i < prefix.parts.len()
            invariant
                i <= prefix.parts@.len() <= self.parts@.len(),
                forall|k: int| 0 <= k < i ==> prefix@[k] == #[trigger] self@[k],
            decreases prefix.parts@.len() - i,
        {
            if prefix.parts[i] != self.parts[i] {
                proof {
                    assert(prefix@[i as int] != self@[i as int]);
                    assert(self@.take(prefix@.len() as int)[i as int] == self@[i as int]);
                }
                return false;
            }
            i = i + 1;
        }
        assert(prefix@ =~= self@.take(prefix@.len() as int));
        true
    }

    /// The path relative to `prefix`; `None` when it is not below it.
    pub fn strip_prefix(&self, prefix: &Path) -> (r: Option<Path>)
        ensures
            match r {
                Some(rest) => self@ == prefix@ + rest@,
                None => !prefix@.is_prefix_of(self@),
            },
    {
        if self.has_prefix(prefix) {
            let rest = self.skip(prefix.parts.len());
            assert(self@ =~= prefix@ + rest@);
            Some(rest)
        } else {
            None
        }
    }

    /// The first part and the path below it; `None` when the path is empty.
    pub fn next_part(&self) -> (r: Option<(String, Path)>)
        ensures
            match r {
                Some((part, rest)) => self@ == seq![part@] + rest@,
                None => self@.len() == 0,
            },
    {
        if self.parts.len() == 0 {
            None
        } else {
            let rest = self.skip(1);
            let part = self.parts[0].clone();
            assert(self@ =~= seq![part@] + rest@);
            Some((part, rest))
        }
    }

    /// Whether the two paths are the same.
    pub fn same(&self, other: &Path) -> (r: bool)
        ensures
            r == (self@ == other@),
    {
        if self.parts.len() != other.parts.len() {
            return false;
        }
        let r = self.has_prefix(other);
        proof {
            if r {
                assert(self@.take(self@.len() as int) =~= self@);
            } else if self@ == other@ {
                assert(self@.take(self@.len() as int) =~= self@);
            }
        }
        r
    }

    /// How the path sorts against another.
    pub fn rank(&self, other: &Path) -> (r: Rank)
        ensures
            match r {
                Rank::Before => path_lt(self@, other@),
                Rank::Same => self@ == other@,
                Rank::After => path_lt(other@, self@),
            },
    {
        proof {
            use_type_invariant(self);
            use_type_invariant(other);
            law_text_round_trip(self@);
            law_text_round_trip(other@);
        }
        let a = chars_of(self.as_str().as_str());
        let b = chars_of(other.as_str().as_str());
        let mut i: usize = 0;
        proof {
            assert(a@.skip(0) =~= a@);
            assert(b@.skip(0) =~= b@);
        }
        while i < a.len() && i < b.len()
            invariant
                i <= a@.len(),
                i <= b@.len(),
                a@ == text(self@),
                b@ == text(other@),
                a@.take(i as int) == b@.take(i as int),
                text_lt(a@, b@) == text_lt(a@.skip(i as int), b@.skip(i as int)),
                text_lt(b@, a@) == text_lt(b@.skip(i as int), a@.skip(i as int)),
            decreases a@.len() - i,
        {
            let x: char = a[i];
            let y: char = b[i];
            if x < y {
                return Rank::Before;
            }
            if y < x {
                return Rank::After;
            }
            assert(x == y);
            proof {
                assert(a@.skip(i as int).skip(1) =~= a@.skip(i + 1));
                assert(b@.skip(i as int).skip(1) =~= b@.skip(i + 1));
                assert(a@.take(i + 1) =~= a@.take(i as int).push(a@[i as int]));
                assert(b@.take(i + 1) =~= b@.take(i as int).push(b@[i as int]));
            }
            i = i + 1;
        }
        if i < b.len() {
            Rank::Before
        } else if i < a.len() {
            Rank::After
        } else {
            proof {
                assert(a@.take(i as int) =~= a@);
                assert(b@.take(i as int) =~= b@);
            }
            Rank::Same
        }
    }
}

impl Clone for Path {
    fn clone(&self) -> (r: Self)
        ensures
            r@ == self@,
    {
        let r = self.skip(0);
        assert(self@.skip(0) =~= self@);
        r
    }
}

/// The views of a list of paths.
pub open spec fn views(paths: Seq<Path>) -> Seq<Seq<Seq<char>>> {
    Seq::new(paths.len(), |i: int| paths[i]@)
}

/// The number of bytes in which a path is written.
pub open spec fn byte_len(parts: Seq<Seq<char>>) -> nat {
    encode_utf8(text(parts)).len()
}

/// The canonical order of prefixes: shorter first, then lexicographic.
pub open spec fn prefix_lt(a: Seq<Seq<char>>, b: Seq<Seq<char>>) -> bool {
    byte_len(a) < byte_len(b) || (byte_len(a) == byte_len(b) && path_lt(a, b))
}

/// No path of the list is another one of it or above another one of it.
pub open spec fn antichain(paths: Seq<Seq<Seq<char>>>) -> bool {
    forall|i: int, j: int|
        0 <= i < paths.len() && 0 <= j < paths.len() && i != j ==> !(#[trigger] paths[i]).is_prefix_of(
            #[trigger] paths[j],
        )
}

/// The list is in canonical order.
pub open spec fn prefix_sorted(paths: Seq<Seq<Seq<char>>>) -> bool {
    forall|i: int, j: int|
        0 <= i < j < paths.len() ==> prefix_lt(#[trigger] paths[i], #[trigger] paths[j])
}

/// Whether some path of the list is `path` or above it.
pub open spec fn covers(paths: Seq<Seq<Seq<char>>>, path: Seq<Seq<char>>) -> bool {
    exists|i: int| 0 <= i < paths.len() && (#[trigger] paths[i]).is_prefix_of(path)
}

/// Whether `out` is the canonical form of the prefixes `given`: the ones that no other
/// one is above, each once, in canonical order.
pub open spec fn canonical_prefixes(
    out: Seq<Seq<Seq<char>>>,
    given: Seq<Seq<Seq<char>>>,
) -> bool {
    &&& antichain(out)
    &&& prefix_sorted(out)
    &&& forall|i: int| 0 <= i < out.len() ==> given.contains(#[trigger] out[i])
    &&& forall|i: int| 0 <= i < given.len() ==> covers(out, #[trigger] given[i])
}

/// A set of path prefixes, with no duplicates and none above another.
pub struct PathPrefixes {
    paths: Vec<Path>,
}

impl View for PathPrefixes {
    type V = Seq<Seq<Seq<char>>>;

    closed spec fn view(&self) -> Seq<Seq<Seq<char>>> {
        views(self.paths@)
    }
}

/// How two prefixes compare in canonical order.
fn prefix_rank(a: &Path, b: &Path) -> (r: Rank)
    ensures
        match r {
            Rank::Before => prefix_lt(a@, b@),
            Rank::Same => a@ == b@,
            Rank::After => prefix_lt(b@, a@),
        },
{
    let x: usize = a.as_str().as_str().as_bytes().len();
    let y: usize = b.as_str().as_str().as_bytes().len();
    if x < y {
        Rank::Before
    } else if y < x {
        Rank::After
    } else {
        a.rank(b)
    }
}

proof fn lemma_prefix_order(a: Seq<Seq<char>>, b: Seq<Seq<char>>, c: Seq<Seq<char>>)
    ensures
        prefix_lt(a, b) && prefix_lt(b, c) ==> prefix_lt(a, c),
{
    law_path_order_is_strict(a, b, c);
}

/// A prefix of a prefix is a prefix.
pub proof fn lemma_prefix_trans(a: Seq<Seq<char>>, b: Seq<Seq<char>>, c: Seq<Seq<char>>)
    requires
        a.is_prefix_of(b),
        b.is_prefix_of(c),
    ensures
        a.is_prefix_of(c),
{
    assert(a =~= c.take(a.len() as int)) by {
        assert forall|k: int| 0 <= k < a.len() implies a[k] == c[k] by {
            assert(a[k] == b.take(a.len() as int)[k]);
            assert(b[k] == c.take(b.len() as int)[k]);
        }
    }
}

impl PathPrefixes {
    #[verifier::type_invariant]
    spec fn inv(self) -> bool {
        antichain(views(self.paths@)) && prefix_sorted(views(self.paths@))
    }

    /// Drop the paths that are `path` or below it.
    fn without_below(kept: &Vec<Path>, path: &Path) -> (r: Vec<Path>)
        requires
            antichain(views(kept@)),
            prefix_sorted(views(kept@)),
        ensures
            antichain(views(r@)),
            prefix_sorted(views(r@)),
            forall|i: int|
                0 <= i < r@.len() ==> !path@.is_prefix_of(#[trigger] views(r@)[i]) && views(
                    kept@,
                ).contains(views(r@)[i]),
            forall|i: int|
                0 <= i < kept@.len() && !path@.is_prefix_of(#[trigger] views(kept@)[i]) ==> views(
                    r@,
                ).contains(views(kept@)[i]),
    {
        let mut r: Vec<Path> = Vec::new();
        let ghost mut from: Seq<int> = Seq::empty();
        let mut i: usize = 0;
        while i < kept.len()
            invariant
                i <= kept@.len(),
                antichain(views(kept@)),
                prefix_sorted(views(kept@)),
                from.len() == r@.len(),
                forall|k: int|
                    0 <= k < r@.len() ==> 0 <= #[trigger] from[k] < i && views(r@)[k] == views(
                        kept@,
                    )[from[k]] && !path@.is_prefix_of(views(r@)[k]),
                forall|k: int, l: int| 0 <= k < l < from.len() ==> #[trigger] from[k] < #[trigger] from[l],
                forall|k: int|
                    0 <= k < i && !path@.is_prefix_of(#[trigger] views(kept@)[k]) ==> views(
                        r@,
                    ).contains(views(kept@)[k]),
            decreases kept@.len() - i,
        {
            let ghost before = views(r@);
            if !kept[i].has_prefix(path) {
                r.push(kept[i].clone());
                proof {
                    from = from.push(i as int);
                    assert(views(r@) =~= before.push(views(kept@)[i as int]));
                    assert(views(r@)[before.len() as int] == views(kept@)[i as int]);
                    assert forall|k: int|
                        0 <= k < i + 1 && !path@.is_prefix_of(#[trigger] views(kept@)[k]) implies views(
                        r@,
                    ).contains(views(kept@)[k]) by {
                        if k < i {
                            let at = choose|at: int|
                                0 <= at < before.len() && before[at] == views(kept@)[k];
                            assert(views(r@)[at] == views(kept@)[k]);
                        }
                    }
                }
            }
            i = i + 1;
        }
        proof {
            assert forall|k: int, l: int| 0 <= k < l < r@.len() implies prefix_lt(
                #[trigger] views(r@)[k],
                #[trigger] views(r@)[l],
            ) by {
                assert(from[k] < from[l]);
            }
            assert forall|k: int, l: int| 0 <= k < r@.len() && 0 <= l < r@.len() && k != l implies !(
            #[trigger] views(r@)[k]).is_prefix_of(#[trigger] views(r@)[l]) by {
                assert(from[k] != from[l]);
            }
            assert forall|k: int| 0 <= k < r@.len() implies !path@.is_prefix_of(
                #[trigger] views(r@)[k],
            ) && views(kept@).contains(views(r@)[k]) by {
                assert(views(kept@)[from[k]] == views(r@)[k]);
            }
        }
        r
    }

    /// Insert a path that is unrelated to the others where it sorts.
    fn insert_sorted(list: &mut Vec<Path>, path: Path)
        requires
            antichain(views(old(list)@)),
            prefix_sorted(views(old(list)@)),
            forall|i: int|
                0 <= i < old(list)@.len() ==> !path@.is_prefix_of(
                    #[trigger] views(old(list)@)[i],
                ) && !views(old(list)@)[i].is_prefix_of(path@),
        ensures
            antichain(views(final(list)@)),
            prefix_sorted(views(final(list)@)),
            exists|at: int|
                0 <= at <= old(list)@.len() && views(final(list)@) == #[trigger] views(
                    old(list)@,
                ).insert(at, path@),
    {
        let mut at: usize = 0;
        let ghost start = views(list@);
        while at < list.len()
            invariant_except_break
                at <= list@.len(),
            invariant
                at <= list@.len(),
                list@ == old(list)@,
                start == views(list@),
                prefix_sorted(start),
                forall|i: int|
                    0 <= i < list@.len() ==> !path@.is_prefix_of(#[trigger] start[i]),
                forall|i: int| 0 <= i < at ==> prefix_lt(#[trigger] start[i], path@),
            ensures
                at < list@.len() ==> prefix_lt(path@, start[at as int]),
            decreases list@.len() - at,
        {
            let rank = prefix_rank(&path, &list[at]);
            assert(start[at as int] == list@[at as int]@);
            match rank {
                Rank::Before => {
                    break;
                },
                _ => {
                    assert(path@.is_prefix_of(path@)) by {
                        assert(path@.take(path@.len() as int) =~= path@);
                    }
                },
            }
            at = at + 1;
        }
        let ghost end = start.insert(at as int, path@);
        list.insert(at, path);
        proof {
            assert(views(list@) =~= end);
            assert forall|i: int, j: int| 0 <= i < j < end.len() implies prefix_lt(
                #[trigger] end[i],
                #[trigger] end[j],
            ) by {
                let x = if i < at { i } else { i - 1 };
                let y = if j < at { j } else { j - 1 };
                if i == at {
                    lemma_prefix_order(path@, start[at as int], start[y]);
                } else if j != at {
                    assert(prefix_lt(start[x], start[y]));
                }
            }
            assert forall|i: int, j: int| 0 <= i < end.len() && 0 <= j < end.len() && i != j implies !(
            #[trigger] end[i]).is_prefix_of(#[trigger] end[j]) by {
                let x = if i < at { i } else { i - 1 };
                let y = if j < at { j } else { j - 1 };
                if i == at {
                    assert(end[j] == start[y]);
                } else if j == at {
                    assert(end[i] == start[x]);
                } else {
                    assert(!start[x].is_prefix_of(start[y]));
                }
            }
        }
    }

    /// The canonical form of a list of prefixes: the ones that no other one is above,
    /// each once, shorter ones first.
    pub fn new(paths: &[Path]) -> (r: Self)
        ensures
            canonical_prefixes(r@, views(paths@)),
            r@ == canonical(views(paths@)),
    {
        let mut list: Vec<Path> = Vec::new();
        let mut n: usize = 0;
        while n < paths.len()
            invariant
                n <= paths@.len(),
                antichain(views(list@)),
                prefix_sorted(views(list@)),
                forall|i: int|
                    0 <= i < list@.len() ==> views(paths@).contains(#[trigger] views(list@)[i]),
                forall|i: int| 0 <= i < n ==> covers(views(list@), #[trigger] views(paths@)[i]),
            decreases paths@.len() - n,
        {
            let path = &paths[n];
            let ghost before = views(list@);
            assert(views(paths@)[n as int] == path@);
            let mut covered = false;
            let mut i: usize = 0;
            while i < list.len()
                invariant
                    i <= list@.len(),
                    before == views(list@),
                    covered == exists|k: int|
                        0 <= k < i && (#[trigger] before[k]).is_prefix_of(path@),
                decreases list@.len() - i,
            {
                assert(before[i as int] == list@[i as int]@);
                if path.has_prefix(&list[i]) {
                    covered = true;
                }
                i = i + 1;
            }
            if !covered {
                let mut next = Self::without_below(&list, path);
                let ghost rest = views(next@);
                proof {
                    assert forall|k: int| 0 <= k < rest.len() implies !(#[trigger] rest[k]).is_prefix_of(
                        path@,
                    ) by {
                        let at = choose|at: int| 0 <= at < before.len() && before[at] == rest[k];
                        assert(!before[at].is_prefix_of(path@));
                    }
                }
                Self::insert_sorted(&mut next, path.clone());
                proof {
                    let end = views(next@);
                    let at = choose|at: int|
                        0 <= at <= rest.len() && end == #[trigger] rest.insert(at, path@);
                    assert(end[at] == path@);
                    assert(path@.is_prefix_of(path@)) by {
                        assert(path@.take(path@.len() as int) =~= path@);
                    }
                    assert forall|k: int| 0 <= k < end.len() implies views(paths@).contains(
                        #[trigger] end[k],
                    ) by {
                        if k != at {
                            let x = if k < at { k } else { k - 1 };
                            assert(end[k] == rest[x]);
                            let y = choose|y: int| 0 <= y < before.len() && before[y] == rest[x];
                            assert(views(paths@).contains(before[y]));
                        }
                    }
                    assert forall|k: int| 0 <= k < n implies covers(end, #[trigger] views(paths@)[k]) by {
                        let p = views(paths@)[k];
                        let x = choose|x: int|
                            0 <= x < before.len() && (#[trigger] before[x]).is_prefix_of(p);
                        if path@.is_prefix_of(before[x]) {
                            lemma_prefix_trans(path@, before[x], p);
                            assert(end[at].is_prefix_of(p));
                        } else {
                            let y = choose|y: int| 0 <= y < rest.len() && rest[y] == before[x];
                            let z = if y < at { y } else { y + 1 };
                            assert(end[z] == rest[y]);
                        }
                    }
                    assert(end[at].is_prefix_of(path@));
                }
                list = next;
            }
            n = n + 1;
        }
        proof {
            let out = views(list@);
            assert(canonical_prefixes(out, views(paths@)));
            law_canonical_form_is_unique(out, canonical(views(paths@)), views(paths@));
        }
        PathPrefixes { paths: list }
    }

    /// The number of prefixes.
    pub fn len(&self) -> (n: usize)
        ensures
            n == self@.len(),
    {
        self.paths.len()
    }

    /// One prefix, by index.
    pub fn get(&self, i: usize) -> (r: &Path)
        requires
            i < self@.len(),
        ensures
            r@ == self@[i as int],
    {
        &self.paths[i]
    }

    /// The prefixes are unrelated to each other.
    pub fn disjoint(&self)
        ensures
            antichain(self@),
    {
        proof {
            use_type_invariant(self);
        }
    }
}

/// The canonical form of a list of prefixes.
pub open spec fn canonical(given: Seq<Seq<Seq<char>>>) -> Seq<Seq<Seq<char>>> {
    choose|out: Seq<Seq<Seq<char>>>| canonical_prefixes(out, given)
}

proof fn lemma_canonical_members(
    a: Seq<Seq<Seq<char>>>,
    b: Seq<Seq<Seq<char>>>,
    given: Seq<Seq<Seq<char>>>,
    i: int,
)
    requires
        canonical_prefixes(a, given),
        canonical_prefixes(b, given),
        0 <= i < a.len(),
    ensures
        b.contains(a[i]),
{
    let x = choose|x: int| 0 <= x < given.len() && given[x] == a[i];
    assert(covers(b, given[x]));
    let j = choose|j: int| 0 <= j < b.len() && (#[trigger] b[j]).is_prefix_of(given[x]);
    let y = choose|y: int| 0 <= y < given.len() && given[y] == b[j];
    assert(covers(a, given[y]));
    let k = choose|k: int| 0 <= k < a.len() && (#[trigger] a[k]).is_prefix_of(given[y]);
    lemma_prefix_trans(a[k], b[j], a[i]);
    assert(k == i);
    assert(a[i] =~= b[j]) by {
        assert(a[i].len() == b[j].len());
        assert(a[i].take(a[i].len() as int) =~= a[i]);
    }
}

proof fn lemma_sorted_unique(a: Seq<Seq<Seq<char>>>, b: Seq<Seq<Seq<char>>>, n: int)
    requires
        prefix_sorted(a),
        prefix_sorted(b),
        forall|i: int| 0 <= i < a.len() ==> b.contains(#[trigger] a[i]),
        forall|i: int| 0 <= i < b.len() ==> a.contains(#[trigger] b[i]),
        0 <= n <= a.len(),
        n <= b.len(),
    ensures
        forall|i: int| 0 <= i < n ==> a[i] == b[i],
    decreases n,
{
    if n > 0 {
        let m = n - 1;
        lemma_sorted_unique(a, b, m);
        let i = choose|i: int| 0 <= i < b.len() && b[i] == a[m];
        let j = choose|j: int| 0 <= j < a.len() && a[j] == b[m];
        assert(b.contains(a[m]) && a.contains(b[m]));
        lemma_prefix_order(a[m], a[m], a[m]);
        law_path_order_is_strict(a[m], b[m], a[m]);
        law_path_order_is_strict(a[m], a[m], a[m]);
        law_path_order_is_strict(b[m], b[m], b[m]);
        if i < m {
            assert(a[i] == b[i]);
            assert(prefix_lt(a[i], a[m]));
        }
        if j < m {
            assert(a[j] == b[j]);
            assert(prefix_lt(b[j], b[m]));
        }
        if i > m && j > m {
            assert(prefix_lt(b[m], b[i]));
            assert(prefix_lt(a[m], a[j]));
        }
    }
}

/// A list of prefixes has one canonical form.
pub proof fn law_canonical_form_is_unique(
    a: Seq<Seq<Seq<char>>>,
    b: Seq<Seq<Seq<char>>>,
    given: Seq<Seq<Seq<char>>>,
)
    requires
        canonical_prefixes(a, given),
        canonical_prefixes(b, given),
    ensures
        a == b,
{
    assert forall|i: int| 0 <= i < a.len() implies b.contains(#[trigger] a[i]) by {
        lemma_canonical_members(a, b, given, i);
    }
    assert forall|i: int| 0 <= i < b.len() implies a.contains(#[trigger] b[i]) by {
        lemma_canonical_members(b, a, given, i);
    }
    let n = if a.len() < b.len() {
        a.len() as int
    } else {
        b.len() as int
    };
    lemma_sorted_unique(a, b, n);
    if a.len() < b.len() {
        let last = b[n];
        let j = choose|j: int| 0 <= j < a.len() && a[j] == last;
        assert(a.contains(last));
        assert(b[j] == b[n]);
        law_path_order_is_strict(last, last, last);
        assert(prefix_lt(b[j], b[n]));
    } else if b.len() < a.len() {
        let last = a[n];
        let j = choose|j: int| 0 <= j < b.len() && b[j] == last;
        assert(b.contains(last));
        assert(a[j] == a[n]);
        law_path_order_is_strict(last, last, last);
        assert(prefix_lt(a[j], a[n]));
    }
    assert(a =~= b);
}

/// The canonical form of a list of prefixes covers what the list covers.
pub proof fn law_canonical_form_covers_the_same(
    out: Seq<Seq<Seq<char>>>,
    given: Seq<Seq<Seq<char>>>,
    path: Seq<Seq<char>>,
)
    requires
        canonical_prefixes(out, given),
    ensures
        covers(out, path) <==> covers(given, path),
{
    if covers(out, path) {
        let i = choose|i: int| 0 <= i < out.len() && (#[trigger] out[i]).is_prefix_of(path);
        let x = choose|x: int| 0 <= x < given.len() && given[x] == out[i];
        assert(given[x].is_prefix_of(path));
    }
    if covers(given, path) {
        let x = choose|x: int| 0 <= x < given.len() && (#[trigger] given[x]).is_prefix_of(path);
        assert(covers(out, given[x]));
        let i = choose|i: int| 0 <= i < out.len() && (#[trigger] out[i]).is_prefix_of(given[x]);
        lemma_prefix_trans(out[i], given[x], path);
    }
}

proof fn lemma_split_at_slash(a: Seq<char>, b: Seq<char>, part: Seq<char>)
    ensures
        split_from(a + seq!['/'] + b, part) == split_from(a, part) + split_from(b, Seq::empty()),
    decreases a.len(),
{
    let whole = a + seq!['/'] + b;
    if a.len() == 0 {
        assert(whole.skip(1) =~= b);
        assert(whole[0] == '/');
    } else {
        assert(whole[0] == a[0]);
        assert(whole.skip(1) =~= a.skip(1) + seq!['/'] + b);
        if a[0] == '/' {
            lemma_split_at_slash(a.skip(1), b, Seq::empty());
            assert(split_from(whole, part) =~= split_from(a, part) + split_from(b, Seq::empty()));
        } else {
            lemma_split_at_slash(a.skip(1), b, part.push(a[0]));
        }
    }
}

proof fn lemma_split_without_slash(s: Seq<char>, part: Seq<char>)
    requires
        forall|i: int| 0 <= i < s.len() ==> #[trigger] s[i] != '/',
        (part + s).len() > 0,
    ensures
        split_from(s, part) == seq![part + s],
    decreases s.len(),
{
    if s.len() == 0 {
        assert(part + s =~= part);
    } else {
        assert(s[0] != '/');
        assert forall|i: int| 0 <= i < s.skip(1).len() implies #[trigger] s.skip(1)[i] != '/' by {
            assert(s[i + 1] != '/');
        }
        assert(part.push(s[0]) + s.skip(1) =~= part + s);
        lemma_split_without_slash(s.skip(1), part.push(s[0]));
    }
}

/// A slash separates two paths, a string without one is a single part, and an empty string is
/// none, so empty segments never count.
pub proof fn law_slashes_separate(a: &str, b: &str, s: &str, of_a: Path, of_b: Path, of_s: Path)
    requires
        call_ensures(Path::new, (a,), of_a),
        call_ensures(Path::new, (b,), of_b),
        call_ensures(Path::new, (s,), of_s),
    ensures
        s@ == a@ + seq!['/'] + b@ ==> of_s@ == of_a@ + of_b@,
        (forall|i: int| 0 <= i < s@.len() ==> #[trigger] s@[i] != '/') && s@.len() > 0 ==> of_s@
            == seq![s@],
        s@.len() == 0 ==> of_s@.len() == 0,
{
    if s@ == a@ + seq!['/'] + b@ {
        lemma_split_at_slash(a@, b@, Seq::empty());
    }
    if (forall|i: int| 0 <= i < s@.len() ==> #[trigger] s@[i] != '/') && s@.len() > 0 {
        assert(Seq::<char>::empty() + s@ =~= s@);
        lemma_split_without_slash(s@, Seq::empty());
    }
}

/// A path is written as its parts with one slash between two.
pub proof fn law_paths_are_written_with_slashes(
    a: Path,
    b: Path,
    joined: Path,
    of_a: String,
    of_b: String,
    of_joined: String,
)
    requires
        call_ensures(Path::join, (&a, &b), joined),
        call_ensures(Path::as_str, (&a,), of_a),
        call_ensures(Path::as_str, (&b,), of_b),
        call_ensures(Path::as_str, (&joined,), of_joined),
    ensures
        joined@ == a@ + b@,
        a@.len() == 0 ==> of_a@.len() == 0 && of_joined@ == of_b@,
        b@.len() == 0 ==> of_joined@ == of_a@,
        a@.len() == 1 ==> of_a@ == a@[0],
        a@.len() > 0 && b@.len() > 0 ==> of_joined@ == of_a@ + seq!['/'] + of_b@,
{
    if a@.len() == 0 {
        assert(a@ + b@ =~= b@);
    }
    if b@.len() == 0 {
        assert(a@ + b@ =~= a@);
    }
    if a@.len() > 0 && b@.len() > 0 {
        lemma_text_joins(a@, b@);
    }
}

proof fn lemma_text_joins(a: Seq<Seq<char>>, b: Seq<Seq<char>>)
    requires
        a.len() > 0,
        b.len() > 0,
    ensures
        text(a + b) == text(a) + seq!['/'] + text(b),
    decreases a.len(),
{
    assert((a + b).skip(1) =~= a.skip(1) + b);
    if a.len() > 1 {
        lemma_text_joins(a.skip(1), b);
        assert(text(a + b) =~= text(a) + seq!['/'] + text(b));
    } else {
        assert(a.skip(1) + b =~= b);
        assert(text(a + b) =~= text(a) + seq!['/'] + text(b));
    }
}

proof fn lemma_text_order(a: Seq<char>, b: Seq<char>, i: int)
    requires
        0 <= i <= a.len(),
        i < b.len(),
        a.take(i) == b.take(i),
        i == a.len() || (a[i] as int) < (b[i] as int),
    ensures
        text_lt(a, b),
        !text_lt(b, a),
    decreases i,
{
    if i > 0 {
        assert(a[0] == a.take(i)[0]);
        assert(b[0] == b.take(i)[0]);
        assert(a.skip(1).take(i - 1) =~= a.take(i).skip(1));
        assert(b.skip(1).take(i - 1) =~= b.take(i).skip(1));
        lemma_text_order(a.skip(1), b.skip(1), i - 1);
    }
}

/// Paths sort as they are written: by the first character in which they differ, and what is
/// written first is before what goes on after it.
pub proof fn law_paths_sort_as_written(
    a: Path,
    b: Path,
    of_a: String,
    of_b: String,
    forward: Rank,
    backward: Rank,
    i: int,
)
    requires
        call_ensures(Path::as_str, (&a,), of_a),
        call_ensures(Path::as_str, (&b,), of_b),
        call_ensures(Path::rank, (&a, &b), forward),
        call_ensures(Path::rank, (&b, &a), backward),
        0 <= i <= of_a@.len(),
        i < of_b@.len(),
        of_a@.take(i) == of_b@.take(i),
        i == of_a@.len() || (of_a@[i] as int) < (of_b@[i] as int),
    ensures
        forward == Rank::Before,
        backward == Rank::After,
        path_lt(a@, b@),
        !path_lt(b@, a@),
{
    lemma_text_order(of_a@, of_b@, i);
    lemma_text_lt_irreflexive(text(a@));
}

/// A prefix is what a path can be made from by joining the rest, and stripping it gives that
/// rest; only whole parts match.
pub proof fn law_prefixes_are_stripped(
    path: Path,
    prefix: Path,
    rest: Path,
    joined: Path,
    there: bool,
    of_joined: bool,
    stripped: Option<Path>,
    of_path: Option<Path>,
)
    requires
        call_ensures(Path::join, (&prefix, &rest), joined),
        call_ensures(Path::has_prefix, (&joined, &prefix), of_joined),
        call_ensures(Path::strip_prefix, (&joined, &prefix), stripped),
        call_ensures(Path::has_prefix, (&path, &prefix), there),
        call_ensures(Path::strip_prefix, (&path, &prefix), of_path),
    ensures
        of_joined,
        stripped is Some && stripped->0@ == rest@,
        there <==> of_path is Some,
        there <==> prefix@.len() <= path@.len() && forall|i: int|
            0 <= i < prefix@.len() ==> prefix@[i] == #[trigger] path@[i],
        of_path is Some ==> path@ == prefix@ + of_path->0@,
{
    assert(joined@.take(prefix@.len() as int) =~= prefix@);
    if stripped is Some {
        assert(stripped->0@ =~= joined@.skip(prefix@.len() as int));
        assert(rest@ =~= joined@.skip(prefix@.len() as int));
    }
    if prefix@.len() <= path@.len() && forall|i: int|
        0 <= i < prefix@.len() ==> prefix@[i] == #[trigger] path@[i] {
        assert(path@.take(prefix@.len() as int) =~= prefix@);
    }
    if there {
        assert forall|i: int| 0 <= i < prefix@.len() implies prefix@[i] == #[trigger] path@[i] by {
            assert(path@.take(prefix@.len() as int)[i] == path@[i]);
        }
    }
    if of_path is Some {
        assert(path@.take(prefix@.len() as int) =~= prefix@);
    }
}

/// Taking a path apart and looking at it agree with its parts.
pub proof fn law_paths_are_their_parts(
    path: Path,
    other: Path,
    i: usize,
    n: usize,
    count: usize,
    none: bool,
    same: bool,
    part: &String,
    rest: Path,
    next: Option<(String, Path)>,
    fresh: Path,
    copy: Path,
)
    requires
        call_ensures(Path::part_count, (&path,), count),
        call_ensures(Path::is_empty, (&path,), none),
        call_ensures(Path::same, (&path, &other), same),
        call_ensures(Path::part, (&path, i), part),
        call_ensures(Path::skip, (&path, n), rest),
        call_ensures(Path::next_part, (&path,), next),
        call_ensures(Path::empty, (), fresh),
        call_ensures(Path::clone, (&path,), copy),
        i < path@.len(),
        n <= path@.len(),
    ensures
        count == path@.len(),
        none <==> count == 0,
        same <==> path@ == other@,
        part@ == path@[i as int],
        rest@ == path@.skip(n as int),
        next is Some <==> count > 0,
        next is Some ==> {
            let (head, tail) = next->0;
            head@ == path@[0] && tail@ == path@.skip(1)
        },
        fresh@.len() == 0,
        copy@ == path@,
{
    if next is Some {
        let (head, tail) = next->0;
        assert(tail@ =~= path@.skip(1));
    }
}

/// The canonical form of prefixes keeps some of those given, none above another, so that every
/// one given is at or below one kept. It lists them by the length in which they are written,
/// then by how they are written.
pub proof fn law_canonical_prefixes(given: &[Path], out: PathPrefixes, i: int, j: int)
    requires
        call_ensures(PathPrefixes::new, (given,), out),
    ensures
        0 <= i < out@.len() ==> exists|k: int| 0 <= k < given@.len() && (#[trigger] given@[k])@
            == out@[i],
        0 <= i < given@.len() ==> exists|k: int|
            0 <= k < out@.len() && (#[trigger] out@[k]).is_prefix_of(given@[i]@),
        0 <= i < out@.len() && 0 <= j < out@.len() && i != j ==> !out@[i].is_prefix_of(out@[j]),
        0 <= i < j < out@.len() ==> encode_utf8(text(out@[i])).len() < encode_utf8(
            text(out@[j]),
        ).len() || (encode_utf8(text(out@[i])).len() == encode_utf8(text(out@[j])).len() && path_lt(
            out@[i],
            out@[j],
        )),
{
    let all = views(given@);
    if 0 <= i < out@.len() {
        assert(all.contains(out@[i]));
        let k = choose|k: int| 0 <= k < all.len() && all[k] == out@[i];
        assert(given@[k]@ == out@[i]);
    }
    if 0 <= i < given@.len() {
        assert(all[i] == given@[i]@);
        assert(covers(out@, all[i]));
    }
    if 0 <= i < j < out@.len() {
        assert(prefix_lt(out@[i], out@[j]));
    }
}

/// A list of paths covers those at and below one of its paths.
pub proof fn law_covered_is_at_or_below(paths: Seq<Seq<Seq<char>>>, path: Seq<Seq<char>>)
    ensures
        covers(paths, path) <==> exists|i: int, rest: Seq<Seq<char>>|
            0 <= i < paths.len() && path == #[trigger] (paths[i] + rest),
{
    if covers(paths, path) {
        let i = choose|i: int| 0 <= i < paths.len() && (#[trigger] paths[i]).is_prefix_of(path);
        assert(path =~= paths[i] + path.skip(paths[i].len() as int));
    }
    if exists|i: int, rest: Seq<Seq<char>>|
        0 <= i < paths.len() && path == #[trigger] (paths[i] + rest) {
        let (i, rest) = choose|i: int, rest: Seq<Seq<char>>|
            0 <= i < paths.len() && path == #[trigger] (paths[i] + rest);
        assert(path.take(paths[i].len() as int) =~= paths[i]);
        assert(paths[i].is_prefix_of(path));
    }
}

/// The path one part below another has that part at its end, and a list of prefixes is what it
/// holds.
pub proof fn law_children_and_lists(
    path: Path,
    part: String,
    child: Path,
    prefixes: PathPrefixes,
    n: usize,
    i: usize,
    one: &Path,
)
    requires
        call_ensures(Path::child, (&path, &part), child),
        call_ensures(PathPrefixes::len, (&prefixes,), n),
        call_ensures(PathPrefixes::get, (&prefixes, i), one),
        i < prefixes@.len(),
    ensures
        child@ == path@ + seq![part@],
        n == prefixes@.len(),
        one@ == prefixes@[i as int],
{
    assert(path@.push(part@) =~= path@ + seq![part@]);
}

} // verus!
