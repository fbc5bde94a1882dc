//! Paths as texts, with a slash between their steps.

use vstd::prelude::*;

use crate::text::{
    chars_of, find_last, first_index, join, joined, last_index, lemma_first_index, same, split,
    split_on, string_of, texts,
};

verus! {

/// The path of `name` under `dir`: an absolute one is itself.
pub open spec fn joined_path(dir: Seq<char>, name: Seq<char>) -> Seq<char> {
    if rooted(name) {
        name
    } else if dir.len() == 0 || dir.last() == '/' {
        dir + name
    } else {
        dir + "/"@ + name
    }
}

/// Whether a path is absolute.
pub open spec fn rooted(path: Seq<char>) -> bool {
    path.len() > 0 && path[0] == '/'
}

/// The steps among the parts of a path between slashes: an empty part is none,
/// and a dot is one only where the path begins with it.
pub open spec fn kept_steps(parts: Seq<Seq<char>>) -> Seq<Seq<char>>
    decreases parts.len(),
{
    if parts.len() == 0 {
        seq![]
    } else {
        let before = kept_steps(parts.drop_last());
        if parts.last().len() == 0 || (parts.last() == "."@ && parts.len() > 1) {
            before
        } else {
            before.push(parts.last())
        }
    }
}

/// The steps of a path.
pub open spec fn path_steps(path: Seq<char>) -> Seq<Seq<char>> {
    kept_steps(split_on(path, '/'))
}

/// The path with these steps.
pub open spec fn path_of_steps(root: bool, steps: Seq<Seq<char>>) -> Seq<char> {
    if root {
        "/"@ + joined(steps, "/"@)
    } else {
        joined(steps, "/"@)
    }
}

/// A path without superfluous slashes and dots.
pub open spec fn plain_path(path: Seq<char>) -> Seq<char> {
    path_of_steps(rooted(path), path_steps(path))
}

/// The path without its last step, if it has one.
pub open spec fn parent_path(path: Seq<char>) -> Option<Seq<char>> {
    if path_steps(path).len() == 0 {
        None
    } else {
        Some(path_of_steps(rooted(path), path_steps(path).drop_last()))
    }
}

/// The name of the file that a path leads to, if it ends in a name.
pub open spec fn path_file_name(path: Seq<char>) -> Option<Seq<char>> {
    let steps = path_steps(path);
    if steps.len() == 0 || steps.last() == "."@ || steps.last() == ".."@ {
        None
    } else {
        Some(steps.last())
    }
}

/// The name of a file without its extension.
pub open spec fn stem_of(name: Seq<char>) -> Seq<char> {
    if last_index(name, '.') <= 0 {
        name
    } else {
        name.take(last_index(name, '.'))
    }
}

/// The path of `name` under `dir`.
pub fn join_path(dir: &str, name: &str) -> (r: String)
    ensures
        r@ == joined_path(dir@, name@),
{
    let d = chars_of(dir);
    let n = chars_of(name);
    if n.len() > 0 && n[0] == '/' {
        return name.to_owned();
    }
    let mut r = dir.to_owned();
    if d.len() != 0 && d[d.len() - 1] != '/' {
        r.append("/");
    }
    r.append(name);
    r
}

fn is_rooted(path: &str) -> (r: bool)
    ensures
        r == rooted(path@),
{
    let v = chars_of(path);
    v.len() > 0 && v[0] == '/'
}

/// The steps of a path.
pub fn steps_of_path(path: &str) -> (r: Vec<String>)
    ensures
        texts(r@) == path_steps(path@),
{
    let parts = split(path, '/');
    let ghost pv = texts(parts@);
    let mut r: Vec<String> = Vec::new();
    let mut i: usize = 0;
    assert(texts(r@) =~= seq![]);
    while i < parts.len()
        invariant
            i <= parts.len(),
            pv == texts(parts@),
            texts(r@) == kept_steps(pv.take(i as int)),
        decreases parts.len() - i,
    {
        let ghost before = r@;
        proof {
            let next = pv.take(i + 1);
            assert(next.drop_last() == pv.take(i as int));
            assert(next.last() == parts@[i as int]@);
        }
        let part = parts[i].as_str();
        if part.unicode_len() != 0 && !(same(part, ".") && i > 0) {
            let step = parts[i].clone();
            r.push(step);
            assert(texts(r@) =~= texts(before).push(step@));
        }
        i += 1;
    }
    assert(pv.take(i as int) == pv);
    r
}

/// The path with these steps.
pub fn path_from_steps(root: bool, steps: &Vec<String>) -> (r: String)
    ensures
        r@ == path_of_steps(root, texts(steps@)),
{
    let inner = join(steps, "/");
    if root {
        let mut r = "/".to_owned();
        r.append(inner.as_str());
        r
    } else {
        inner
    }
}

/// The path without its last step, if it has one.
pub fn parent_of_path(path: &str) -> (r: Option<String>)
    ensures
        match r {
            Some(p) => parent_path(path@) == Some(p@),
            None => parent_path(path@) is None,
        },
{
    let mut steps = steps_of_path(path);
    assert(texts(steps@).len() == steps@.len());
    if steps.len() == 0 {
        return None;
    }
    let ghost all = steps@;
    let _ = steps.pop();
    assert(texts(steps@) =~= texts(all).drop_last());
    Some(path_from_steps(is_rooted(path), &steps))
}

/// The name of the file that a path leads to, if it ends in a name.
pub fn file_name_of_path(path: &str) -> (r: Option<String>)
    ensures
        match r {
            Some(name) => path_file_name(path@) == Some(name@),
            None => path_file_name(path@) is None,
        },
{
    let steps = steps_of_path(path);
    assert(texts(steps@).len() == steps@.len());
    if steps.len() == 0 {
        return None;
    }
    let last = steps[steps.len() - 1].as_str();
    assert(last@ == texts(steps@).last());
    if same(last, ".") || same(last, "..") {
        None
    } else {
        Some(steps[steps.len() - 1].clone())
    }
}

/// The name of a file without its extension.
pub fn stem_of_name(name: &str) -> (r: String)
    ensures
        r@ == stem_of(name@),
{
    let v = chars_of(name);
    let i: usize = find_last(&v, '.');
    if i <= 1 {
        name.to_owned()
    } else {
        let r = string_of(&v, 0, i - 1);
        assert(r@ =~= name@.take(i - 1));
        r
    }
}

proof fn lemma_split_append(a: Seq<char>, b: Seq<char>, c: char)
    ensures
        split_on(a + seq![c] + b, c) == split_on(a, c) + split_on(b, c),
    decreases a.len(),
{
    let whole = a + seq![c] + b;
    let i = first_index(a, c);
    lemma_first_index(a, c);
    lemma_first_index(whole, c);
    let k = first_index(whole, c);
    if 0 <= i < a.len() {
        assert(whole[i] == a[i]);
        assert(k == i) by {
            if k < i {
                assert(whole[k] == a[k]);
            }
        }
        assert(whole.take(i) =~= a.take(i));
        assert(whole.skip(i + 1) =~= a.skip(i + 1) + seq![c] + b);
        lemma_split_append(a.skip(i + 1), b, c);
        assert(split_on(whole, c) =~= split_on(a, c) + split_on(b, c));
    } else {
        assert(whole[a.len() as int] == c);
        assert(k == a.len()) by {
            if k < a.len() {
                assert(whole[k] == a[k]);
            }
        }
        assert(whole.take(a.len() as int) =~= a);
        assert(whole.skip(a.len() as int + 1) =~= b);
        assert(split_on(whole, c) =~= split_on(a, c) + split_on(b, c));
    }
}

proof fn lemma_split_whole(s: Seq<char>, c: char)
    requires
        !s.contains(c),
    ensures
        split_on(s, c) == seq![s],
{
    lemma_first_index(s, c);
    let i = first_index(s, c);
    if 0 <= i < s.len() {
        assert(s[i] == c);
    }
}

proof fn lemma_parts_have_none(s: Seq<char>, c: char)
    ensures
        split_on(s, c).len() >= 1,
        forall|i: int| 0 <= i < split_on(s, c).len() ==> !(#[trigger] split_on(s, c)[i]).contains(c),
    decreases s.len(),
{
    lemma_first_index(s, c);
    let i = first_index(s, c);
    if 0 <= i < s.len() {
        lemma_parts_have_none(s.skip(i + 1), c);
        let head = s.take(i);
        assert(!head.contains(c)) by {
            if head.contains(c) {
                let j = choose|j: int| 0 <= j < head.len() && head[j] == c;
                assert(s[j] == c);
            }
        }
        let rest = split_on(s.skip(i + 1), c);
        assert forall|j: int| 0 <= j < split_on(s, c).len() implies !(
        #[trigger] split_on(s, c)[j]).contains(c) by {
            if j > 0 {
                assert(split_on(s, c)[j] == rest[j - 1]);
            }
        }
    } else {
        assert(!s.contains(c)) by {
            if s.contains(c) {
                let j = choose|j: int| 0 <= j < s.len() && s[j] == c;
            }
        }
    }
}

/// Whether steps are those of some path: none is empty or has a slash in it, and
/// a dot stands only at the front of a path that is not absolute.
pub open spec fn proper_steps(root: bool, steps: Seq<Seq<char>>) -> bool {
    forall|i: int|
        0 <= i < steps.len() ==> {
            let step = #[trigger] steps[i];
            &&& step.len() > 0
            &&& !step.contains('/')
            &&& step == "."@ ==> i == 0 && !root
        }
}

proof fn lemma_kept_are_proper(root: bool, parts: Seq<Seq<char>>)
    requires
        forall|i: int| 0 <= i < parts.len() ==> !(#[trigger] parts[i]).contains('/'),
        root ==> parts.len() > 0 && parts[0].len() == 0,
    ensures
        proper_steps(root, kept_steps(parts)),
    decreases parts.len(),
{
    if parts.len() > 0 {
        let front = parts.drop_last();
        assert forall|i: int| 0 <= i < front.len() implies !(#[trigger] front[i]).contains('/') by {
            assert(front[i] == parts[i]);
        }
        assert(parts.last() == parts[parts.len() - 1]);
        if front.len() > 0 {
            lemma_kept_are_proper(root, front);
        } else {
            assert(kept_steps(front) =~= seq![]);
        }
    }
}

/// The steps of a path are proper.
pub proof fn lemma_steps_are_proper(path: Seq<char>)
    ensures
        proper_steps(rooted(path), path_steps(path)),
{
    let parts = split_on(path, '/');
    lemma_parts_have_none(path, '/');
    if rooted(path) {
        assert(seq![] + seq!['/'] + path.skip(1) =~= path);
        lemma_split_append(seq![], path.skip(1), '/');
        lemma_split_whole(seq![], '/');
        assert(parts[0] == Seq::<char>::empty());
    }
    lemma_kept_are_proper(rooted(path), parts);
}

proof fn lemma_split_joined(steps: Seq<Seq<char>>)
    requires
        steps.len() > 0,
        forall|i: int| 0 <= i < steps.len() ==> !(#[trigger] steps[i]).contains('/'),
    ensures
        split_on(joined(steps, "/"@), '/') == steps,
    decreases steps.len(),
{
    reveal_strlit("/");
    assert("/"@ =~= seq!['/']);
    assert(steps.last() == steps[steps.len() - 1]);
    lemma_split_whole(steps.last(), '/');
    if steps.len() == 1 {
        assert(joined(steps, "/"@) =~= steps[0]) by {
            reveal_with_fuel(joined, 2);
        }
        assert(steps =~= seq![steps[0]]);
    } else {
        let front = steps.drop_last();
        assert forall|i: int| 0 <= i < front.len() implies !(#[trigger] front[i]).contains('/') by {
            assert(front[i] == steps[i]);
        }
        lemma_split_joined(front);
        assert(joined(steps, "/"@) =~= joined(front, "/"@) + seq!['/'] + steps.last());
        lemma_split_append(joined(front, "/"@), steps.last(), '/');
        assert(steps =~= front + seq![steps.last()]);
    }
}

proof fn lemma_kept_all(root: bool, parts: Seq<Seq<char>>)
    requires
        proper_steps(root, parts),
    ensures
        kept_steps(parts) == parts,
        root ==> kept_steps(seq![seq![]] + parts) == parts,
    decreases parts.len(),
{
    if parts.len() == 0 {
        assert(parts =~= seq![]);
        let e: Seq<Seq<char>> = seq![seq![]];
        assert(e + parts =~= e);
        assert(e.drop_last() =~= seq![]);
        assert(kept_steps(e) == kept_steps(e.drop_last()));
    } else {
        let front = parts.drop_last();
        assert forall|i: int| 0 <= i < front.len() implies {
            let step = #[trigger] front[i];
            &&& step.len() > 0
            &&& !step.contains('/')
            &&& step == "."@ ==> i == 0 && !root
        } by {
            assert(front[i] == parts[i]);
        }
        lemma_kept_all(root, front);
        assert(parts.last() == parts[parts.len() - 1]);
        assert(front.push(parts.last()) =~= parts);
        let e: Seq<Seq<char>> = seq![seq![]];
        assert((e + parts).drop_last() =~= e + front);
        assert((e + parts).last() == parts.last());
    }
}

/// Steps make a path that has these steps.
pub proof fn lemma_path_of_steps(root: bool, steps: Seq<Seq<char>>)
    requires
        proper_steps(root, steps),
    ensures
        path_steps(path_of_steps(root, steps)) == steps,
        rooted(path_of_steps(root, steps)) == root,
{
    reveal_strlit("/");
    assert("/"@ =~= seq!['/']);
    let inner = joined(steps, "/"@);
    assert forall|i: int| 0 <= i < steps.len() implies !(#[trigger] steps[i]).contains('/') by {}
    if steps.len() == 0 {
        assert(inner =~= seq![]);
        lemma_split_whole(inner, '/');
        let e: Seq<Seq<char>> = seq![seq![]];
        assert(split_on(inner, '/') =~= e);
        assert(e.drop_last() =~= seq![]);
        assert(kept_steps(e) =~= seq![]) by {
            reveal_with_fuel(kept_steps, 2);
        }
        assert(steps =~= seq![]);
        if root {
            lemma_split_append(seq![], inner, '/');
            assert(seq![] + seq!['/'] + inner =~= "/"@ + inner);
            assert((e + e).drop_last() =~= e);
            assert((e + e).last().len() == 0);
        }
    } else {
        lemma_split_joined(steps);
        lemma_kept_all(root, steps);
        if root {
            assert(seq![] + seq!['/'] + inner =~= "/"@ + inner);
            lemma_split_append(seq![], inner, '/');
            lemma_split_whole(seq![], '/');
        } else {
            lemma_joined_front(steps);
            assert(steps[0].len() > 0);
            assert(inner[0] == steps[0][0]);
            assert(steps[0].contains(steps[0][0]));
        }
    }
}

proof fn lemma_joined_front(steps: Seq<Seq<char>>)
    requires
        steps.len() > 0,
        steps[0].len() > 0,
    ensures
        joined(steps, "/"@).len() > 0,
        joined(steps, "/"@)[0] == steps[0][0],
    decreases steps.len(),
{
    if steps.len() == 1 {
        assert(joined(steps, "/"@) =~= steps[0]) by {
            reveal_with_fuel(joined, 2);
        }
    } else {
        lemma_joined_front(steps.drop_last());
        assert(steps.drop_last()[0] == steps[0]);
    }
}

/// Whether a text can be a step of a path: it is not empty, has no slash in it and
/// is no dot.
pub open spec fn is_step(name: Seq<char>) -> bool {
    &&& name.len() > 0
    &&& !name.contains('/')
    &&& name != "."@
}

/// The path of a step under a path has the steps of the path and that one.
pub proof fn lemma_joined_steps(dir: Seq<char>, name: Seq<char>)
    requires
        is_step(name),
    ensures
        path_steps(joined_path(dir, name)) == path_steps(dir).push(name),
        rooted(joined_path(dir, name)) == rooted(dir),
{
    reveal_strlit("/");
    assert("/"@ =~= seq!['/']);
    assert(!rooted(name)) by {
        if rooted(name) {
            assert(name.contains(name[0]));
        }
    }
    lemma_split_whole(name, '/');
    lemma_parts_have_none(dir, '/');
    if dir.len() == 0 {
        assert(dir + name =~= name);
        lemma_split_whole(dir, '/');
        let e: Seq<Seq<char>> = seq![dir];
        assert(e.drop_last() =~= seq![]);
        assert(path_steps(dir) =~= seq![]) by {
            reveal_with_fuel(kept_steps, 2);
        }
        let n: Seq<Seq<char>> = seq![name];
        assert(n.drop_last() =~= seq![]);
        assert(kept_steps(n) =~= seq![name]);
    } else if dir.last() == '/' {
        let a = dir.drop_last();
        assert(dir =~= a + seq!['/'] + seq![]);
        lemma_split_append(a, seq![], '/');
        lemma_split_whole(seq![], '/');
        assert(dir + name =~= a + seq!['/'] + name);
        lemma_split_append(a, name, '/');
        lemma_parts_have_none(a, '/');
        let p = split_on(a, '/');
        assert((p + seq![name]).drop_last() =~= p);
        let e: Seq<Seq<char>> = seq![seq![]];
        assert((p + e).drop_last() =~= p);
        assert((p + e).last().len() == 0);
    } else {
        assert(dir + "/"@ + name =~= dir + seq!['/'] + name);
        lemma_split_append(dir, name, '/');
        let p = split_on(dir, '/');
        assert((p + seq![name]).drop_last() =~= p);
    }
}

} // verus!
