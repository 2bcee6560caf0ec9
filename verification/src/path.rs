//! Paths as text: their components, the path of a file relative to the
//! scanned root, and the extension of a file name. The separator is `/`.

use vstd::prelude::*;
use vstd::std_specs::iter::IteratorSpec;
use vstd::string::StrSliceExecFns;
use vstd::string::StringExecFns;

verus! {

/// The pieces of `s` between separators, in order. There is always at least
/// one piece, and a piece may be empty.
pub open spec fn split(s: Seq<char>) -> Seq<Seq<char>>
    decreases s.len(),
{
    if s.len() == 0 {
        seq![Seq::<char>::empty()]
    } else {
        let front = split(s.drop_last());
        if s.last() == '/' {
            front.push(Seq::<char>::empty())
        } else {
            front.drop_last().push(front.last().push(s.last()))
        }
    }
}

/// Pieces joined by one separator between neighbours.
pub open spec fn join(pieces: Seq<Seq<char>>) -> Seq<char>
    decreases pieces.len(),
{
    if pieces.len() == 0 {
        Seq::<char>::empty()
    } else if pieces.len() == 1 {
        pieces[0]
    } else {
        join(pieces.drop_last()) + seq!['/'] + pieces.last()
    }
}

/// Whether piece `i` names something: it is not empty, and it is not a `.`
/// anywhere but in front.
pub open spec fn is_named(pieces: Seq<Seq<char>>, i: int) -> bool {
    pieces[i].len() > 0 && (i == 0 || pieces[i] != seq!['.'])
}

/// Those of the first `n` pieces that name something.
pub open spec fn named(pieces: Seq<Seq<char>>, n: int) -> Seq<Seq<char>>
    decreases n,
{
    if n <= 0 {
        Seq::<Seq<char>>::empty()
    } else if is_named(pieces, n - 1) {
        named(pieces, n - 1).push(pieces[n - 1])
    } else {
        named(pieces, n - 1)
    }
}

/// The components of a path. A path that starts with a separator has the
/// component `/` in front. Then come its pieces, without the empty ones
/// (repeated or trailing separators) and without any `.` but a leading one.
pub open spec fn components(s: Seq<char>) -> Seq<Seq<char>> {
    let pieces = split(s);
    if s.len() > 0 && s[0] == '/' {
        seq![seq!['/']] + named(pieces, pieces.len() as int)
    } else {
        named(pieces, pieces.len() as int)
    }
}

/// Whether `whole` begins with all of `front`.
pub open spec fn starts_with(whole: Seq<Seq<char>>, front: Seq<Seq<char>>) -> bool {
    front.len() <= whole.len() && whole.take(front.len() as int) == front
}

/// What is left of the components `whole` behind `front`: the rest where
/// `whole` begins with `front`, and all of `whole` where it does not.
pub open spec fn behind(front: Seq<Seq<char>>, whole: Seq<Seq<char>>) -> Seq<Seq<char>> {
    if starts_with(whole, front) {
        whole.skip(front.len() as int)
    } else {
        whole
    }
}

/// The segments of `path` as seen from `base`: the components of `path` behind
/// those of `base` where `path` lies under `base`, and all components of
/// `path` where it does not.
pub open spec fn relative_segments(base: Seq<char>, path: Seq<char>) -> Seq<Seq<char>> {
    behind(components(base), components(path))
}

/// How a path is written once the components `front` are taken away: the
/// remaining components joined where the path begins with `front`, and the
/// path unchanged where it does not (or where `front` is empty).
pub open spec fn text_behind(front: Seq<Seq<char>>, path: Seq<char>) -> Seq<char> {
    let whole = components(path);
    if front.len() > 0 && starts_with(whole, front) {
        join(whole.skip(front.len() as int))
    } else {
        path
    }
}

/// How the path of a file is written in a document: relative to `base` where
/// the path lies under `base`, and unchanged where it does not (or where
/// `base` has no component to take away).
pub open spec fn relative_text(base: Seq<char>, path: Seq<char>) -> Seq<char> {
    text_behind(components(base), path)
}

/// The name of the file or directory that a path ends in. A path that ends in
/// the root, in `..` or in a lone `.` has none.
pub open spec fn file_name(path: Seq<char>) -> Option<Seq<char>> {
    let c = components(path);
    if c.len() == 0 || c.last() == seq!['/'] || c.last() == seq!['.'] || c.last() == seq![
        '.',
        '.',
    ] {
        None
    } else {
        Some(c.last())
    }
}

/// The index of the last `.` in `name`, or -1 where it has none.
pub open spec fn last_dot(name: Seq<char>) -> int
    decreases name.len(),
{
    if name.len() == 0 {
        -1
    } else if name.last() == '.' {
        name.len() - 1
    } else {
        last_dot(name.drop_last())
    }
}

/// The extension of the file that a path names: what follows the last `.` of
/// the file name. It is empty where there is no file name, where the name has
/// no `.`, and where its only `.` is its first character.
pub open spec fn extension(path: Seq<char>) -> Seq<char> {
    match file_name(path) {
        None => Seq::<char>::empty(),
        Some(name) => {
            let dot = last_dot(name);
            if dot <= 0 {
                Seq::<char>::empty()
            } else {
                name.skip(dot + 1)
            }
        },
    }
}

/// The name under which a project is presented: the name that its root path
/// ends in, or the whole path where it ends in none.
pub open spec fn project_title(root: Seq<char>) -> Seq<char> {
    match file_name(root) {
        Some(name) => name,
        None => root,
    }
}

/// A path always has at least one piece.
pub proof fn lemma_split_nonempty(s: Seq<char>)
    ensures
        split(s).len() >= 1,
    decreases s.len(),
{
    if s.len() > 0 {
        lemma_split_nonempty(s.drop_last());
    }
}

/// Splitting loses nothing: the pieces joined again are the text.
pub proof fn lemma_join_split(s: Seq<char>)
    ensures
        join(split(s)) == s,
    decreases s.len(),
{
    if s.len() == 0 {
        assert(join(split(s)) =~= s);
    } else {
        let front = split(s.drop_last());
        lemma_split_nonempty(s.drop_last());
        lemma_join_split(s.drop_last());
        if s.last() == '/' {
            let all = front.push(Seq::<char>::empty());
            assert(all.drop_last() =~= front);
            assert(join(all) =~= s);
        } else {
            let grown = front.last().push(s.last());
            let all = front.drop_last().push(grown);
            if front.len() == 1 {
                assert(join(all) =~= s);
            } else {
                assert(all.drop_last() =~= front.drop_last());
                assert(join(all) =~= join(front).push(s.last()));
                assert(join(all) =~= s);
            }
        }
    }
}

/// No piece holds a separator.
pub proof fn lemma_split_pieces(s: Seq<char>)
    ensures
        forall|i: int, j: int|
            0 <= i < split(s).len() && 0 <= j < split(s)[i].len() ==> #[trigger] split(
                s,
            )[i][j] != '/',
    decreases s.len(),
{
    if s.len() > 0 {
        lemma_split_pieces(s.drop_last());
        lemma_split_nonempty(s.drop_last());
    }
}

/// Which of the first `k` pieces are named depends on those pieces alone.
proof fn lemma_named_agree(a: Seq<Seq<char>>, b: Seq<Seq<char>>, k: int)
    requires
        k <= a.len(),
        k <= b.len(),
        forall|j: int| 0 <= j < k ==> a[j] == b[j],
    ensures
        named(a, k) == named(b, k),
    decreases k,
{
    if k > 0 {
        lemma_named_agree(a, b, k - 1);
    }
}

/// The characters of a text.
pub fn chars_of(s: &str) -> (chars: Vec<char>)
    ensures
        chars@ == s@,
{
    let mut chars: Vec<char> = Vec::new();
    let mut rest = s.chars();
    loop
        invariant
            chars@.len() <= s@.len(),
            chars@ == s@.take(chars@.len() as int),
            rest.remaining() == s@.skip(chars@.len() as int),
        decreases s@.len() - chars@.len(),
    {
        let ghost k = chars@.len() as int;
        match rest.next() {
            None => {
                assert(s@.take(k) =~= s@);
                return chars;
            },
            Some(c) => {
                chars.push(c);
                assert(s@.skip(k).skip(1) =~= s@.skip(k + 1));
                assert(chars@ =~= s@.take(k + 1));
            },
        }
    }
}

/// Whether the piece between `start` and `end` is kept as a component.
fn keeps(chars: &Vec<char>, start: usize, end: usize, first: bool) -> (kept: bool)
    requires
        start <= end <= chars.len(),
    ensures
        kept == {
            let piece = chars@.subrange(start as int, end as int);
            piece.len() > 0 && (first || piece != seq!['.'])
        },
{
    let ghost piece = chars@.subrange(start as int, end as int);
    if end == start {
        false
    } else if first {
        true
    } else if end - start == 1 && chars[start] == '.' {
        assert(piece =~= seq!['.']);
        false
    } else {
        if end - start == 1 {
            assert(piece[0] != '.');
        }
        true
    }
}

/// Splits a path into its components.
pub fn path_components(path: &str) -> (parts: Vec<String>)
    ensures
        parts.deep_view() == components(path@),
{
    let chars = chars_of(path);
    let n = chars.len();
    let ghost s = path@;
    let mut parts: Vec<String> = Vec::new();
    if n > 0 && chars[0] == '/' {
        proof {
            reveal_strlit("/");
        }
        let root = String::from_str("/");
        assert(root@ =~= seq!['/']);
        parts.push(root);
    }
    let ghost rooted = parts.deep_view();
    assert(rooted =~= if s.len() > 0 && s[0] == '/' {
        seq![seq!['/']]
    } else {
        Seq::<Seq<char>>::empty()
    });
    let mut start: usize = 0;
    let mut first = true;
    let mut i: usize = 0;
    proof {
        assert(s.take(0) =~= Seq::<char>::empty());
        assert(s.subrange(0, 0) =~= Seq::<char>::empty());
        assert(parts.deep_view() =~= rooted + named(split(s.take(0)), 0));
    }
    while i < n
        invariant
            chars@ == s,
            path@ == s,
            n == s.len(),
            start <= i <= n,
            split(s.take(i as int)).len() >= 1,
            split(s.take(i as int)).last() == s.subrange(start as int, i as int),
            first == (split(s.take(i as int)).len() == 1),
            parts.deep_view() == rooted + named(
                split(s.take(i as int)),
                split(s.take(i as int)).len() - 1,
            ),
        decreases n - i,
    {
        let ghost before = split(s.take(i as int));
        let ghost after = split(s.take(i + 1));
        let ghost listed = parts.deep_view();
        proof {
            assert(s.take(i + 1).drop_last() =~= s.take(i as int));
            assert(s.take(i + 1).last() == s[i as int]);
        }
        if chars[i] == '/' {
            if keeps(&chars, start, i, first) {
                let piece = String::from_str(path.substring_char(start, i));
                parts.push(piece);
            }
            proof {
                let last = before.len() - 1;
                assert(after == before.push(Seq::<char>::empty()));
                lemma_named_agree(before, after, before.len() as int);
                assert(s.subrange(i + 1, i + 1) =~= Seq::<char>::empty());
                assert(before[last] == s.subrange(start as int, i as int));
                if is_named(before, last) {
                    assert(parts.deep_view() =~= listed.push(before[last]));
                    assert(listed.push(before[last]) =~= rooted + named(before, last).push(
                        before[last],
                    ));
                }
                assert(parts.deep_view() =~= rooted + named(after, after.len() - 1));
            }
            start = i + 1;
            first = false;
        } else {
            proof {
                assert(after == before.drop_last().push(before.last().push(s[i as int])));
                lemma_named_agree(before, after, before.len() - 1);
                assert(s.subrange(start as int, i + 1) =~= s.subrange(start as int, i as int).push(
                    s[i as int],
                ));
            }
        }
        i += 1;
    }
    let ghost pieces = split(s);
    let ghost listed = parts.deep_view();
    assert(s.take(n as int) =~= s);
    if keeps(&chars, start, n, first) {
        let piece = String::from_str(path.substring_char(start, n));
        parts.push(piece);
    }
    proof {
        let last = pieces.len() - 1;
        assert(pieces[last] == s.subrange(start as int, n as int));
        if is_named(pieces, last) {
            assert(parts.deep_view() =~= listed.push(pieces[last]));
            assert(listed.push(pieces[last]) =~= rooted + named(pieces, last).push(pieces[last]));
        }
        assert(parts.deep_view() =~= rooted + named(pieces, pieces.len() as int));
    }
    parts
}

/// Whether `whole` begins with all of `front`.
fn begins_with(whole: &Vec<String>, front: &Vec<String>) -> (yes: bool)
    ensures
        yes == starts_with(whole.deep_view(), front.deep_view()),
{
    if front.len() > whole.len() {
        return false;
    }
    let ghost w = whole.deep_view();
    let ghost f = front.deep_view();
    let mut i: usize = 0;
    while i < front.len()
        invariant
            w == whole.deep_view(),
            f == front.deep_view(),
            i <= front.len() <= whole.len(),
            forall|j: int| 0 <= j < i ==> w[j] == f[j],
        decreases front.len() - i,
    {
        if !(whole[i] == front[i]) {
            assert(w.take(f.len() as int)[i as int] != f[i as int]);
            return false;
        }
        i += 1;
    }
    assert(w.take(f.len() as int) =~= f);
    true
}

/// The components of `path` behind those of the root, `front`.
pub fn components_behind(front: &Vec<String>, path: &str) -> (segments: Vec<String>)
    ensures
        segments.deep_view() == behind(front.deep_view(), components(path@)),
{
    let whole = path_components(path);
    if !begins_with(&whole, front) {
        return whole;
    }
    let ghost w = whole.deep_view();
    let k = front.len();
    let mut segments: Vec<String> = Vec::new();
    let mut i: usize = k;
    assert(segments.deep_view() =~= w.subrange(k as int, i as int));
    while i < whole.len()
        invariant
            w == whole.deep_view(),
            k <= i <= whole.len(),
            segments.deep_view() == w.subrange(k as int, i as int),
        decreases whole.len() - i,
    {
        let ghost listed = segments.deep_view();
        segments.push(whole[i].clone());
        assert(segments.deep_view() =~= listed.push(w[i as int]));
        assert(listed.push(w[i as int]) =~= w.subrange(k as int, i + 1));
        i += 1;
    }
    assert(w.subrange(k as int, w.len() as int) =~= w.skip(k as int));
    segments
}

/// The segments of `path` as seen from `base`.
pub fn relative_components(base: &str, path: &str) -> (segments: Vec<String>)
    ensures
        segments.deep_view() == relative_segments(base@, path@),
{
    let front = path_components(base);
    components_behind(&front, path)
}

/// Joins the components from index `from` on, with a separator between
/// neighbours.
fn join_from(parts: &Vec<String>, from: usize) -> (text: String)
    requires
        from <= parts.len(),
    ensures
        text@ == join(parts.deep_view().skip(from as int)),
{
    let ghost all = parts.deep_view();
    let mut text = String::new();
    let mut i: usize = from;
    assert(all.subrange(from as int, from as int) =~= Seq::<Seq<char>>::empty());
    while i < parts.len()
        invariant
            all == parts.deep_view(),
            from <= i <= parts.len(),
            text@ == join(all.subrange(from as int, i as int)),
        decreases parts.len() - i,
    {
        let ghost so_far = text@;
        let ghost taken = all.subrange(from as int, i + 1);
        if i > from {
            proof {
                reveal_strlit("/");
            }
            text.append("/");
            assert("/"@ =~= seq!['/']);
        }
        text.append(parts[i].as_str());
        proof {
            assert(taken.drop_last() =~= all.subrange(from as int, i as int));
            assert(taken.last() == all[i as int]);
            assert(text@ =~= join(taken));
        }
        i += 1;
    }
    assert(all.subrange(from as int, all.len() as int) =~= all.skip(from as int));
    text
}

/// How `path` is written once the components of the root, `front`, are taken
/// away.
pub fn path_behind(front: &Vec<String>, path: &str) -> (text: String)
    ensures
        text@ == text_behind(front.deep_view(), path@),
{
    let whole = path_components(path);
    if front.len() > 0 && begins_with(&whole, front) {
        join_from(&whole, front.len())
    } else {
        String::from_str(path)
    }
}

/// How the path of a file is written in a document.
pub fn relative_path(base: &str, path: &str) -> (text: String)
    ensures
        text@ == relative_text(base@, path@),
{
    let front = path_components(base);
    path_behind(&front, path)
}

/// The name of the file or directory that a path ends in, if it ends in one.
pub fn file_name_of(path: &str) -> (name: Option<String>)
    ensures
        match name {
            Some(n) => file_name(path@) == Some(n@),
            None => file_name(path@) is None,
        },
{
    let mut parts = path_components(path);
    let ghost c = parts.deep_view();
    match parts.pop() {
        None => None,
        Some(last) => {
            assert(last@ == c.last());
            let chars = chars_of(last.as_str());
            let n = chars.len();
            if n == 1 && (chars[0] == '/' || chars[0] == '.') {
                assert(last@ =~= seq![chars@[0]]);
                None
            } else if n == 2 && chars[0] == '.' && chars[1] == '.' {
                assert(last@ =~= seq!['.', '.']);
                None
            } else {
                Some(last)
            }
        },
    }
}

/// The extension of the file that a path names, or the empty text.
pub fn extension_of(path: &str) -> (ext: String)
    ensures
        ext@ == extension(path@),
{
    match file_name_of(path) {
        None => String::new(),
        Some(name) => {
            let chars = chars_of(name.as_str());
            let mut end: usize = chars.len();
            assert(chars@.take(end as int) =~= chars@);
            while end > 0 && chars[end - 1] != '.'
                invariant
                    end <= chars.len(),
                    last_dot(chars@) == last_dot(chars@.take(end as int)),
                decreases end,
            {
                assert(chars@.take(end as int).drop_last() =~= chars@.take(end - 1));
                end -= 1;
            }
            assert(last_dot(chars@) == end - 1) by {
                if end > 0 {
                    assert(chars@.take(end as int).last() == '.');
                }
            }
            if end <= 1 {
                String::new()
            } else {
                let rest = name.as_str().substring_char(end, chars.len());
                assert(rest@ =~= name@.skip(end as int));
                String::from_str(rest)
            }
        },
    }
}

/// The name under which a project is presented.
pub fn project_name(root: &str) -> (title: String)
    ensures
        title@ == project_title(root@),
{
    match file_name_of(root) {
        Some(name) => name,
        None => String::from_str(root),
    }
}

} // verus!
