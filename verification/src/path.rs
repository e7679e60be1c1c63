//! Lexical paths: resolving `.` and `..` as text, and containment on segment
//! boundaries.

use crate::text;
use vstd::prelude::*;
use vstd::string::*;

verus! {

/// The segment that stands for the directory it is in.
pub open spec fn here() -> Seq<char> {
    seq!['.']
}

/// The segment that stands for the directory above.
pub open spec fn above() -> Seq<char> {
    seq!['.', '.']
}

/// The directories entered after one more segment: empty and `.` segments
/// stay, `..` goes up, and there is no going up from the top.
pub open spec fn enter(dirs: Seq<Seq<char>>, seg: Seq<char>) -> Option<Seq<Seq<char>>> {
    if seg.len() == 0 || seg == here() {
        Some(dirs)
    } else if seg == above() {
        if dirs.len() == 0 {
            None
        } else {
            Some(dirs.drop_last())
        }
    } else {
        Some(dirs.push(seg))
    }
}

/// The directories entered by following segments from the top.
pub open spec fn follow(segs: Seq<Seq<char>>) -> Option<Seq<Seq<char>>>
    decreases segs.len(),
{
    if segs.len() == 0 {
        Some(Seq::<Seq<char>>::empty())
    } else {
        match follow(segs.drop_last()) {
            Some(dirs) => enter(dirs, segs.last()),
            None => None,
        }
    }
}

/// Whether a path starts at the filesystem root.
pub open spec fn absolute(path: Seq<char>) -> bool {
    path.len() > 0 && path[0] == '/'
}

/// The directories an absolute path names, top first; nothing if the path is
/// relative or climbs above the top.
pub open spec fn resolve(path: Seq<char>) -> Option<Seq<Seq<char>>> {
    if absolute(path) {
        follow(text::split(path, '/'))
    } else {
        None
    }
}

/// The path that names the given directories.
pub open spec fn spell(dirs: Seq<Seq<char>>) -> Seq<char> {
    seq!['/'] + text::join(dirs, seq!['/'])
}

/// The normal form of a path.
pub open spec fn normal(path: Seq<char>) -> Option<Seq<char>> {
    match resolve(path) {
        Some(dirs) => Some(spell(dirs)),
        None => None,
    }
}

/// `path` is at or below `root`, both in normal form.
pub open spec fn under(path: Seq<char>, root: Seq<char>) -> bool {
    root == seq!['/'] || path == root || text::starts_with(path, root.push('/'))
}

/// Whether a path starts with a slash.
pub fn is_absolute(path: &str) -> (res: bool)
    ensures
        res == absolute(path@),
        res == (path@.len() > 0 && path@[0] == '/'),
{
    let chars = text::chars_of(path);
    chars.len() > 0 && chars[0] == '/'
}

/// Lexically normalizes an absolute path: resolves `.` and `..` textually,
/// without touching the filesystem. Gives nothing for a relative path and for
/// one that climbs above `/`.
///
/// Necessary but not sufficient for containment: a symlink inside a root can
/// point out of it, and only the open call can rule that out.
pub fn normalize_lexical(path: &str) -> (res: Option<String>)
    ensures
        (match res {
            Some(t) => Some(t@),
            None => None,
        }) == normal(path@),
{
    if !is_absolute(path) {
        return None;
    }
    let segs = text::split_on(path, '/');
    let ghost all = text::texts(segs@);
    let mut dirs: Vec<String> = Vec::new();
    let mut i: usize = 0;
    assert(text::texts(dirs@) =~= Seq::<Seq<char>>::empty());
    assert(all.take(0) =~= Seq::<Seq<char>>::empty());
    proof {
        reveal_strlit(".");
        reveal_strlit("..");
        assert("."@ =~= here());
        assert(".."@ =~= above());
    }
    while i < segs.len()
        invariant
            absolute(path@),
            all == text::texts(segs@),
            all == text::split(path@, '/'),
            i <= segs@.len(),
            "."@ == here(),
            ".."@ == above(),
            follow(all.take(i as int)) == Some(text::texts(dirs@)),
        decreases segs@.len() - i,
    {
        let seg = segs[i].as_str();
        let ghost before = text::texts(dirs@);
        assert(all.take(i + 1).drop_last() =~= all.take(i as int));
        assert(follow(all.take(i + 1)) == enter(before, seg@));
        if seg.is_empty() || text::same_text(seg, ".") {
        } else if text::same_text(seg, "..") {
            if dirs.pop().is_none() {
                proof {
                    lemma_follow_prefix(all, i + 1);
                }
                return None;
            }
            assert(text::texts(dirs@) =~= before.drop_last());
        } else {
            dirs.push(seg.to_owned());
            assert(text::texts(dirs@) =~= before.push(seg@));
        }
        i += 1;
    }
    assert(all.take(i as int) =~= all);
    let mut res = "/".to_owned();
    res.append(text::join_texts(&dirs, "/").as_str());
    proof {
        reveal_strlit("/");
        assert("/"@ =~= seq!['/']);
    }
    Some(res)
}

/// Segments that cannot be followed cannot be followed any further.
proof fn lemma_follow_prefix(segs: Seq<Seq<char>>, n: int)
    requires
        0 <= n <= segs.len(),
        follow(segs.take(n)) is None,
    ensures
        follow(segs) is None,
    decreases segs.len(),
{
    if n == segs.len() {
        assert(segs.take(n) =~= segs);
    } else {
        assert(segs.drop_last().take(n) =~= segs.take(n));
        lemma_follow_prefix(segs.drop_last(), n);
    }
}

/// Is `path` at or below `root`, both already normalized?
///
/// Compares on segment boundaries: `/etc/mpodolicious` is not under
/// `/etc/mpodol`.
pub fn is_under(path: &str, root: &str) -> (res: bool)
    ensures
        res == under(path@, root@),
        res == (root@ == seq!['/'] || path@ == root@ || (root@.len() < path@.len() && path@.take(
            root@.len() as int,
        ) == root@ && path@[root@.len() as int] == '/')),
{
    proof {
        reveal_strlit("/");
        assert("/"@ =~= seq!['/']);
    }
    if text::same_text(root, "/") {
        return true;
    }
    let mut inside = root.to_owned();
    inside.push('/');
    proof {
        let n = root@.len() as int;
        if text::starts_with(path@, inside@) {
            assert(inside@ == path@.subrange(0, n + 1));
            assert(path@[n] == path@.subrange(0, n + 1)[n]);
            assert forall|k: int| 0 <= k < n implies path@[k] == root@[k] by {
                assert(path@[k] == path@.subrange(0, n + 1)[k]);
            }
            assert(path@.take(n) =~= root@);
        }
        if n < path@.len() && path@.take(n) == root@ && path@[n] == '/' {
            assert forall|k: int| 0 <= k < n implies path@[k] == root@[k] by {
                assert(path@[k] == path@.take(n)[k]);
            }
            assert(inside@ =~= path@.subrange(0, n + 1));
        }
    }
    text::same_text(path, root) || text::begins_with(path, inside.as_str())
}

/// Segments of a resolved path: none is empty, `.` or `..`, and none holds a
/// slash.
pub open spec fn clean(dirs: Seq<Seq<char>>) -> bool {
    forall|i: int|
        0 <= i < dirs.len() ==> {
            &&& (#[trigger] dirs[i]).len() > 0
            &&& dirs[i] != here()
            &&& dirs[i] != above()
            &&& !dirs[i].contains('/')
        }
}

/// No piece of a split text holds the separator.
proof fn lemma_split_pieces(s: Seq<char>, sep: char)
    ensures
        text::split(s, sep).len() > 0,
        forall|i: int|
            0 <= i < text::split(s, sep).len() ==> !(#[trigger] text::split(s, sep)[i]).contains(
                sep,
            ),
    decreases s.len(),
{
    if s.len() > 0 {
        lemma_split_pieces(s.drop_last(), sep);
        let before = text::split(s.drop_last(), sep);
        let all = text::split(s, sep);
        assert forall|i: int| 0 <= i < all.len() implies !(#[trigger] all[i]).contains(sep) by {
            if i < before.len() - 1 || (s.last() == sep && i < before.len()) {
                assert(all[i] == before[i]);
            } else if s.last() != sep {
                assert(all[i] == before.last().push(s.last()));
                assert(!before[before.len() - 1].contains(sep));
                if all[i].contains(sep) {
                    let k = choose|k: int| 0 <= k < all[i].len() && all[i][k] == sep;
                    assert(before.last()[k] == sep);
                }
            }
        }
    }
}

/// Following segments without slashes enters clean directories.
proof fn lemma_follow_clean(segs: Seq<Seq<char>>)
    requires
        forall|i: int| 0 <= i < segs.len() ==> !(#[trigger] segs[i]).contains('/'),
    ensures
        follow(segs) matches Some(dirs) ==> clean(dirs),
    decreases segs.len(),
{
    if segs.len() > 0 {
        let init = segs.drop_last();
        assert forall|i: int| 0 <= i < init.len() implies !(#[trigger] init[i]).contains('/') by {
            assert(init[i] == segs[i]);
        }
        lemma_follow_clean(init);
        assert(!segs[segs.len() - 1].contains('/'));
    }
}

/// The law of resolution: a path resolves to directories with no empty, `.`
/// or `..` segment left.
pub proof fn law_resolved_is_clean(path: Seq<char>)
    ensures
        resolve(path) matches Some(dirs) ==> clean(dirs),
{
    lemma_split_pieces(path, '/');
    lemma_follow_clean(text::split(path, '/'));
}

/// Splitting undoes joining.
proof fn lemma_split_join(dirs: Seq<Seq<char>>)
    requires
        dirs.len() > 0,
        forall|i: int| 0 <= i < dirs.len() ==> !(#[trigger] dirs[i]).contains('/'),
    ensures
        text::split(text::join(dirs, seq!['/']), '/') == dirs,
    decreases dirs.len(),
{
    assert(!dirs[dirs.len() - 1].contains('/'));
    text::lemma_split_whole(dirs.last(), '/');
    if dirs.len() == 1 {
        assert(seq![dirs[0]] =~= dirs);
    } else {
        let init = dirs.drop_last();
        assert forall|i: int| 0 <= i < init.len() implies !(#[trigger] init[i]).contains('/') by {
            assert(init[i] == dirs[i]);
        }
        lemma_split_join(init);
        let j = text::join(init, seq!['/']);
        text::lemma_split_concat(j, dirs.last(), '/');
        assert(j + seq!['/'] + dirs.last() =~= j.push('/') + dirs.last());
        assert(init + seq![dirs.last()] =~= dirs);
    }
}

/// Following clean segments enters just those.
proof fn lemma_follow_itself(dirs: Seq<Seq<char>>)
    requires
        clean(dirs),
    ensures
        follow(dirs) == Some(dirs),
    decreases dirs.len(),
{
    if dirs.len() == 0 {
        assert(dirs =~= Seq::<Seq<char>>::empty());
    } else {
        let init = dirs.drop_last();
        assert forall|i: int| 0 <= i < init.len() implies {
            &&& (#[trigger] init[i]).len() > 0
            &&& init[i] != here()
            &&& init[i] != above()
            &&& !init[i].contains('/')
        } by {
            assert(init[i] == dirs[i]);
        }
        lemma_follow_itself(init);
        assert(dirs[dirs.len() - 1].len() > 0);
        assert(init.push(dirs.last()) =~= dirs);
    }
}

/// An empty first segment changes nothing.
proof fn lemma_follow_after_empty(segs: Seq<Seq<char>>)
    ensures
        follow(seq![Seq::<char>::empty()] + segs) == follow(segs),
    decreases segs.len(),
{
    let all = seq![Seq::<char>::empty()] + segs;
    if segs.len() == 0 {
        assert(all.drop_last() =~= Seq::<Seq<char>>::empty());
        assert(all.last() =~= Seq::<char>::empty());
        assert(follow(all.drop_last()) == Some(Seq::<Seq<char>>::empty()));
    } else {
        lemma_follow_after_empty(segs.drop_last());
        assert(all.drop_last() =~= seq![Seq::<char>::empty()] + segs.drop_last());
    }
}

/// The pieces of a spelled path.
proof fn lemma_spelled_pieces(dirs: Seq<Seq<char>>)
    requires
        clean(dirs),
    ensures
        text::split(spell(dirs), '/') == seq![Seq::<char>::empty()] + (if dirs.len() == 0 {
            seq![Seq::<char>::empty()]
        } else {
            dirs
        }),
{
    let e = Seq::<char>::empty();
    let j = text::join(dirs, seq!['/']);
    text::lemma_split_concat(e, j, '/');
    assert(e.push('/') + j =~= spell(dirs));
    assert(text::split(e, '/') == seq![e]);
    if dirs.len() == 0 {
        assert(text::split(j, '/') == seq![e]);
    } else {
        assert forall|i: int| 0 <= i < dirs.len() implies !(#[trigger] dirs[i]).contains('/') by {
            assert(dirs[i].len() > 0);
        }
        lemma_split_join(dirs);
    }
}

/// The law of normal forms: spelling clean directories and resolving them
/// again gives them back. So a normal form is its own normal form.
pub proof fn law_spelled_resolves_back(dirs: Seq<Seq<char>>)
    requires
        clean(dirs),
    ensures
        resolve(spell(dirs)) == Some(dirs),
        normal(spell(dirs)) == Some(spell(dirs)),
{
    lemma_spelled_pieces(dirs);
    assert(spell(dirs)[0] == '/');
    if dirs.len() == 0 {
        let e = Seq::<char>::empty();
        lemma_follow_after_empty(seq![e]);
        lemma_follow_after_empty(Seq::<Seq<char>>::empty());
        assert(seq![e] + Seq::<Seq<char>>::empty() =~= seq![e]);
        assert(dirs =~= Seq::<Seq<char>>::empty());
    } else {
        lemma_follow_after_empty(dirs);
        lemma_follow_itself(dirs);
    }
}

/// The law of idempotence: normalizing a second time changes nothing.
pub proof fn law_normal_is_fixed(path: Seq<char>)
    ensures
        normal(path) matches Some(n) ==> absolute(n) && normal(n) == Some(n),
{
    law_resolved_is_clean(path);
    if resolve(path) is Some {
        law_spelled_resolves_back(resolve(path)->0);
        assert(spell(resolve(path)->0)[0] == '/');
    }
}

/// Joining two lists is joining each and putting the separator between.
proof fn lemma_join_concat(a: Seq<Seq<char>>, b: Seq<Seq<char>>, sep: Seq<char>)
    requires
        a.len() > 0,
        b.len() > 0,
    ensures
        text::join(a + b, sep) == text::join(a, sep) + sep + text::join(b, sep),
{
    text::law_join_puts_between(a, b, sep);
}

/// A spelled path is longer than `/` as soon as it names a directory.
proof fn lemma_spelled_length(dirs: Seq<Seq<char>>)
    requires
        clean(dirs),
    ensures
        dirs.len() == 0 <==> spell(dirs) == seq!['/'],
        dirs.len() > 0 ==> spell(dirs).len() > 1,
{
    if dirs.len() == 0 {
        assert(spell(dirs) =~= seq!['/']);
    } else {
        assert(dirs[dirs.len() - 1].len() > 0);
        assert(dirs[0].len() > 0);
        assert(text::join(dirs, seq!['/']).len() > 0);
    }
}

/// The law of containment: one normal form is under another exactly if the
/// directories of the second are the first directories of the first.
pub proof fn law_under_is_segment_prefix(path: Seq<Seq<char>>, root: Seq<Seq<char>>)
    requires
        clean(path),
        clean(root),
    ensures
        under(spell(path), spell(root)) <==> root.is_prefix_of(path),
{
    lemma_spelled_length(path);
    lemma_spelled_length(root);
    lemma_spelled_pieces(path);
    lemma_spelled_pieces(root);
    let e = Seq::<char>::empty();
    let p = spell(path);
    let r = spell(root);
    if root.len() == 0 {
        assert(root =~= path.subrange(0, 0));
    } else {
        if under(p, r) {
            if p == r {
                assert(path.len() > 0);
                assert(path =~= (seq![e] + path).drop_first());
                assert(root =~= (seq![e] + root).drop_first());
            } else {
                let rest = p.skip(r.len() as int + 1);
                assert(p =~= r.push('/') + rest);
                text::lemma_split_concat(r, rest, '/');
                let pieces = text::split(p, '/');
                assert(pieces == seq![e] + root + text::split(rest, '/'));
                assert(path.len() > 0);
                assert(path =~= pieces.drop_first());
                assert(root =~= path.subrange(0, root.len() as int));
            }
        }
        if root.is_prefix_of(path) {
            if root.len() == path.len() {
                assert(root =~= path);
            } else {
                let tail = path.skip(root.len() as int);
                assert(path =~= root + tail);
                lemma_join_concat(root, tail, seq!['/']);
                assert(p =~= r.push('/') + text::join(tail, seq!['/']));
                assert(r.push('/') =~= p.subrange(0, r.len() as int + 1));
            }
        }
    }
}

/// The name of a directory: not empty, not `.` or `..`, and without a slash.
pub open spec fn plain(seg: Seq<char>) -> bool {
    &&& seg.len() > 0
    &&& seg != seq!['.']
    &&& seg != seq!['.', '.']
    &&& !seg.contains('/')
}

/// One more segment of an absolute path is entered after all the others.
proof fn lemma_one_more(p: Seq<char>, seg: Seq<char>)
    requires
        p.len() > 0,
        p[0] == '/',
        !seg.contains('/'),
    ensures
        resolve(p + seq!['/'] + seg) == (match resolve(p) {
            Some(dirs) => enter(dirs, seg),
            None => None,
        }),
{
    let longer = p + seq!['/'] + seg;
    text::lemma_split_concat(p, seg, '/');
    text::lemma_split_whole(seg, '/');
    assert(longer =~= p.push('/') + seg);
    let segs = text::split(p, '/');
    assert(segs + seq![seg] =~= segs.push(seg));
    assert(segs.push(seg).drop_last() =~= segs);
    assert(longer[0] == '/');
}

/// The first segment is entered from the top.
proof fn lemma_first_segment(seg: Seq<char>)
    requires
        !seg.contains('/'),
    ensures
        resolve(seq!['/'] + seg) == enter(Seq::<Seq<char>>::empty(), seg),
{
    let e = Seq::<char>::empty();
    let none = Seq::<Seq<char>>::empty();
    let p = seq!['/'] + seg;
    text::lemma_split_concat(e, seg, '/');
    text::lemma_split_whole(e, '/');
    text::lemma_split_whole(seg, '/');
    assert(e.push('/') + seg =~= p);
    let segs = seq![e, seg];
    assert(text::split(p, '/') =~= segs);
    assert(segs.drop_last() =~= seq![e]);
    lemma_follow_after_empty(none);
    assert(seq![e] + none =~= seq![e]);
    assert(p[0] == '/');
}

/// The law of steps: the directories of a path follow from those of the path
/// before its last segment. A name is entered, `..` leaves the directory that
/// was entered last, however deep, `.` and nothing stay, and there is no way
/// above the top.
pub proof fn law_each_segment_is_a_step(p: Seq<char>, seg: Seq<char>)
    requires
        p.len() > 0,
        p[0] == '/',
    ensures
        resolve(seq!['/']) == Some(Seq::<Seq<char>>::empty()),
        plain(seg) ==> resolve(seq!['/'] + seg) == Some(seq![seg]),
        resolve(seq!['/', '.']) == Some(Seq::<Seq<char>>::empty()),
        resolve(seq!['/', '.', '.']) is None,
        resolve(p) is None && !seg.contains('/') ==> resolve(p + seq!['/'] + seg) is None,
        resolve(p) matches Some(dirs) ==> {
            &&& plain(seg) ==> resolve(p + seq!['/'] + seg) == Some(dirs.push(seg))
            &&& resolve(p + seq!['/', '.', '.']) == (if dirs.len() == 0 {
                None
            } else {
                Some(dirs.drop_last())
            })
            &&& resolve(p + seq!['/', '.']) == Some(dirs)
            &&& resolve(p + seq!['/']) == Some(dirs)
        },
{
    let e = Seq::<char>::empty();
    let top = seq!['/'];
    text::lemma_split_concat(e, e, '/');
    text::lemma_split_whole(e, '/');
    assert(e.push('/') + e =~= top);
    assert(text::split(top, '/') =~= seq![e] + seq![e]);
    lemma_follow_after_empty(seq![e]);
    lemma_follow_after_empty(Seq::<Seq<char>>::empty());
    assert(seq![e] + Seq::<Seq<char>>::empty() =~= seq![e]);
    if !seg.contains('/') {
        lemma_one_more(p, seg);
        lemma_first_segment(seg);
        assert(Seq::<Seq<char>>::empty().push(seg) =~= seq![seg]);
    }
    lemma_first_segment(seq!['.']);
    assert(seq!['/'] + seq!['.'] =~= seq!['/', '.']);
    lemma_first_segment(seq!['.', '.']);
    assert(seq!['/'] + seq!['.', '.'] =~= seq!['/', '.', '.']);
    lemma_one_more(p, seq!['.', '.']);
    assert(p + seq!['/'] + seq!['.', '.'] =~= p + seq!['/', '.', '.']);
    lemma_one_more(p, seq!['.']);
    assert(p + seq!['/'] + seq!['.'] =~= p + seq!['/', '.']);
    lemma_one_more(p, e);
    assert(p + seq!['/'] + e =~= p + seq!['/']);
}

/// The law of spelling: a normal form is a slash and the names of its
/// directories with a slash between neighbours.
pub proof fn law_normal_spells_the_directories(p: Seq<char>, dirs: Seq<Seq<char>>, seg: Seq<char>)
    ensures
        normal(p) is Some <==> resolve(p) is Some,
        resolve(p) matches Some(all) ==> normal(p) == Some(
            seq!['/'] + text::join(all, seq!['/']),
        ),
        resolve(p) == Some(Seq::<Seq<char>>::empty()) ==> normal(p) == Some(seq!['/']),
        resolve(p) == Some(seq![seg]) ==> normal(p) == Some(seq!['/'] + seg),
        forall|q: Seq<char>|
            dirs.len() > 0 && resolve(p) == Some(dirs.push(seg)) && #[trigger] resolve(q) == Some(
                dirs,
            ) ==> normal(p) == Some(normal(q)->0 + seq!['/'] + seg),
{
    let none = Seq::<Seq<char>>::empty();
    assert(spell(none) =~= seq!['/']);
    assert(spell(seq![seg]) =~= seq!['/'] + seg);
    if dirs.len() > 0 {
        text::law_join_puts_between(dirs, seq![seg], seq!['/']);
        assert(dirs + seq![seg] =~= dirs.push(seg));
        assert(spell(dirs.push(seg)) =~= spell(dirs) + seq!['/'] + seg);
    }
}

/// The law of undoing: entering a directory and leaving it again changes
/// nothing about a path's normal form, and entering it adds its name.
pub proof fn law_entering_and_leaving_undo(p: Seq<char>, seg: Seq<char>)
    requires
        p.len() > 0,
        p[0] == '/',
        plain(seg),
    ensures
        normal(p + seq!['/'] + seg + seq!['/', '.', '.']) == normal(p),
        normal(p + seq!['/', '.']) == normal(p),
        normal(p + seq!['/']) == normal(p),
        normal(p) is None ==> normal(p + seq!['/'] + seg) is None && normal(
            p + seq!['/', '.', '.'],
        ) is None,
        normal(p) == Some(seq!['/']) ==> normal(p + seq!['/'] + seg) == Some(seq!['/'] + seg)
            && normal(p + seq!['/', '.', '.']) is None,
        normal(p) matches Some(n) ==> n != seq!['/'] ==> normal(p + seq!['/'] + seg) == Some(
            n + seq!['/'] + seg,
        ) && normal(p + seq!['/', '.', '.']) is Some,
{
    let inner = p + seq!['/'] + seg;
    law_each_segment_is_a_step(p, seg);
    law_each_segment_is_a_step(p, seq!['.', '.']);
    assert(p + seq!['/'] + seq!['.', '.'] =~= p + seq!['/', '.', '.']);
    law_each_segment_is_a_step(inner, seg);
    lemma_one_more(inner, seq!['.', '.']);
    assert(inner + seq!['/'] + seq!['.', '.'] =~= inner + seq!['/', '.', '.']);
    law_resolved_is_clean(p);
    if resolve(p) is Some {
        let dirs = resolve(p)->0;
        assert(dirs.push(seg).drop_last() =~= dirs);
        lemma_spelled_length(dirs);
        law_normal_spells_the_directories(inner, dirs, seg);
        if dirs.len() == 0 {
            assert(dirs.push(seg) =~= seq![seg]);
        }
    } else {
        lemma_one_more(p, seq!['/'].drop_last());
        assert(p + seq!['/'] + seq!['/'].drop_last() =~= p + seq!['/']);
        lemma_one_more(p, seq!['.']);
        assert(p + seq!['/'] + seq!['.'] =~= p + seq!['/', '.']);
    }
}

/// The law of relative paths: only what begins with a slash has a normal form.
pub proof fn law_relative_paths_have_no_normal_form(p: Seq<char>)
    requires
        p.len() == 0 || p[0] != '/',
    ensures
        normal(p) is None,
{
}

/// The law of roots: a path is under a root exactly if the root is `/`, or the
/// path is the root, or the root, a slash and something more.
pub proof fn law_under_goes_by_slashes(path: Seq<char>, root: Seq<char>)
    ensures
        under(path, root) <==> root == seq!['/'] || path == root || exists|rest: Seq<char>|
            path == #[trigger] (root + seq!['/'] + rest),
{
    let start = root + seq!['/'];
    assert(start =~= root.push('/'));
    text::law_occurrence_is_a_part(path, start);
}

} // verus!
