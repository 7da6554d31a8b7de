//! Unix path components, as `std::path::Path::components` splits them, and the
//! component-wise relations (prefix, file name, order) built on them.
use vstd::prelude::*;

verus! {

/// A path component in value form.
pub enum Comp {
    Root,
    Cur,
    Parent,
    Normal(Seq<char>),
}

/// The components contributed by one separator-delimited part of a path.
pub open spec fn part_comps(part: Seq<char>, index: nat, rooted: bool) -> Seq<Comp> {
    if part.len() == 0 {
        seq![]
    } else if part == seq!['.'] {
        if index == 0 && !rooted {
            seq![Comp::Cur]
        } else {
            seq![]
        }
    } else if part == seq!['.', '.'] {
        seq![Comp::Parent]
    } else {
        seq![Comp::Normal(part)]
    }
}

/// Components of the finished parts, the part being read, and its index.
pub open spec fn scan_parts(s: Seq<char>, rooted: bool) -> (Seq<Comp>, Seq<char>, nat)
    decreases s.len(),
{
    if s.len() == 0 {
        (seq![], seq![], 0)
    } else {
        let (done, cur, index) = scan_parts(s.drop_last(), rooted);
        if s.last() == '/' {
            (done + part_comps(cur, index, rooted), seq![], index + 1)
        } else {
            (done, cur.push(s.last()), index)
        }
    }
}

pub open spec fn is_rooted(s: Seq<char>) -> bool {
    s.len() > 0 && s[0] == '/'
}

/// `Path::components` on Unix: a leading root, then the non-empty parts between
/// separators, with `.` kept only at the start of a relative path.
pub open spec fn path_components(s: Seq<char>) -> Seq<Comp> {
    let rooted = is_rooted(s);
    let (done, cur, index) = scan_parts(s, rooted);
    (if rooted {
        seq![Comp::Root]
    } else {
        seq![]
    }) + done + part_comps(cur, index, rooted)
}

/// `Path::file_name`: the last component when it is a normal one.
pub open spec fn file_name(s: Seq<char>) -> Option<Seq<char>> {
    let c = path_components(s);
    if c.len() > 0 && c.last() is Normal {
        Some(c.last()->Normal_0)
    } else {
        None
    }
}

/// `Path::starts_with`: `base`'s components are a prefix of `path`'s.
pub open spec fn path_starts_with(path: Seq<char>, base: Seq<char>) -> bool {
    let p = path_components(path);
    let b = path_components(base);
    b.len() <= p.len() && p.subrange(0, b.len() as int) == b
}

/// Path equality (`PartialEq for Path`): equal components.
pub open spec fn path_eq(a: Seq<char>, b: Seq<char>) -> bool {
    path_components(a) == path_components(b)
}

/// Integer key of one component; keys compare like `Component`'s derived order.
pub open spec fn comp_key(c: Comp) -> Seq<u64> {
    match c {
        Comp::Root => seq![1u64],
        Comp::Cur => seq![2u64],
        Comp::Parent => seq![3u64],
        Comp::Normal(n) => seq![4u64] + n.map_values(|ch: char| (((ch as u32) as u64) + 1) as u64) + seq![
            0u64,
        ],
    }
}

pub open spec fn comps_key(cs: Seq<Comp>) -> Seq<u64>
    decreases cs.len(),
{
    if cs.len() == 0 {
        seq![]
    } else {
        comps_key(cs.drop_last()) + comp_key(cs.last())
    }
}

/// Sort key of a path: paths compare component by component, as `Ord for Path` does.
pub open spec fn path_key(s: Seq<char>) -> Seq<u64> {
    comps_key(path_components(s))
}

/// A path component held by executable code.
#[derive(Debug, Clone, PartialEq, Eq)]
pub enum Component {
    RootDir,
    CurDir,
    ParentDir,
    Normal(Vec<char>),
}

impl View for Component {
    type V = Comp;

    open spec fn view(&self) -> Comp {
        match self {
            Component::RootDir => Comp::Root,
            Component::CurDir => Comp::Cur,
            Component::ParentDir => Comp::Parent,
            Component::Normal(n) => Comp::Normal(n@),
        }
    }
}

pub open spec fn comps_view(v: Seq<Component>) -> Seq<Comp> {
    v.map_values(|c: Component| c@)
}

fn push_part(out: &mut Vec<Component>, part: Vec<char>, index: usize, rooted: bool)
    ensures
        comps_view(final(out)@) == comps_view(old(out)@) + part_comps(
            part@,
            index as nat,
            rooted,
        ),
{
    let ghost before = comps_view(out@);
    if part.len() == 0 {
        assert(comps_view(out@) =~= before + seq![]);
    } else if part.len() == 1 && part[0] == '.' {
        assert(part@ =~= seq!['.']);
        if index == 0 && !rooted {
            out.push(Component::CurDir);
            assert(comps_view(out@) =~= before + seq![Comp::Cur]);
        } else {
            assert(comps_view(out@) =~= before + seq![]);
        }
    } else if part.len() == 2 && part[0] == '.' && part[1] == '.' {
        assert(part@ =~= seq!['.', '.']);
        out.push(Component::ParentDir);
        assert(comps_view(out@) =~= before + seq![Comp::Parent]);
    } else {
        assert(part@ != seq!['.']);
        assert(part@ != seq!['.', '.']);
        let ghost pv = part@;
        out.push(Component::Normal(part));
        assert(comps_view(out@) =~= before + seq![Comp::Normal(pv)]);
    }
}

/// Splits a path into its components.
pub fn components(path: &Vec<char>) -> (r: Vec<Component>)
    ensures
        comps_view(r@) == path_components(path@),
{
    let rooted = path.len() > 0 && path[0] == '/';
    let mut out: Vec<Component> = Vec::new();
    if rooted {
        out.push(Component::RootDir);
    }
    let ghost head = comps_view(out@);
    assert(head =~= (if rooted {
        seq![Comp::Root]
    } else {
        seq![]
    }));
    let mut cur: Vec<char> = Vec::new();
    let mut index: usize = 0;
    let mut i: usize = 0;
    assert(path@.take(0) =~= seq![]);
    while i < path.len()
        invariant
            i <= path.len(),
            index <= i,
            rooted == is_rooted(path@),
            ({
                let (done, c, k) = scan_parts(path@.take(i as int), rooted);
                comps_view(out@) == head + done && cur@ == c && index == k
            }),
        decreases path.len() - i,
    {
        assert(path@.take(i + 1).drop_last() =~= path@.take(i as int));
        if path[i] == '/' {
            let part = cur;
            cur = Vec::new();
            push_part(&mut out, part, index, rooted);
            proof {
                let (done, c, k) = scan_parts(path@.take(i as int), rooted);
                assert(comps_view(out@) =~= head + (done + part_comps(c, k, rooted)));
            }
            index += 1;
        } else {
            cur.push(path[i]);
        }
        i += 1;
    }
    assert(path@.take(path.len() as int) =~= path@);
    let ghost before_last = comps_view(out@);
    push_part(&mut out, cur, index, rooted);
    proof {
        let (done, c, k) = scan_parts(path@, rooted);
        assert(comps_view(out@) =~= head + done + part_comps(c, k, rooted));
    }
    out
}

/// Compares two components by value.
pub fn component_eq(a: &Component, b: &Component) -> (r: bool)
    ensures
        r == (a@ == b@),
{
    match (a, b) {
        (Component::RootDir, Component::RootDir) => true,
        (Component::CurDir, Component::CurDir) => true,
        (Component::ParentDir, Component::ParentDir) => true,
        (Component::Normal(x), Component::Normal(y)) => crate::text::seq_chars_eq(x, y),
        _ => false,
    }
}

/// `b` is a prefix of `a`, component by component.
pub fn comps_prefix(a: &Vec<Component>, b: &Vec<Component>) -> (r: bool)
    ensures
        r == (b@.len() <= a@.len() && comps_view(a@).subrange(0, b@.len() as int) == comps_view(
            b@,
        )),
{
    if b.len() > a.len() {
        return false;
    }
    let mut i: usize = 0;
    while i < b.len()
        invariant
            i <= b.len(),
            b.len() <= a.len(),
            forall|k: int| 0 <= k < i ==> a@[k]@ == b@[k]@,
        decreases b.len() - i,
    {
        if !component_eq(&a[i], &b[i]) {
            assert(comps_view(a@).subrange(0, b@.len() as int)[i as int] != comps_view(b@)[i as int]);
            return false;
        }
        i += 1;
    }
    assert(comps_view(a@).subrange(0, b@.len() as int) =~= comps_view(b@));
    true
}

/// Compares two component lists by value.
pub fn comps_eq(a: &Vec<Component>, b: &Vec<Component>) -> (r: bool)
    ensures
        r == (comps_view(a@) == comps_view(b@)),
{
    if a.len() != b.len() {
        assert(comps_view(a@).len() != comps_view(b@).len());
        return false;
    }
    let r = comps_prefix(a, b);
    assert(comps_view(a@).subrange(0, b@.len() as int) =~= comps_view(a@));
    r
}

/// `Path::starts_with` on two paths.
pub fn starts_with(path: &Vec<char>, base: &Vec<char>) -> (r: bool)
    ensures
        r == path_starts_with(path@, base@),
{
    let p = components(path);
    let b = components(base);
    comps_prefix(&p, &b)
}

/// `Path::file_name`.
pub fn file_name_of(path: &Vec<char>) -> (r: Option<Vec<char>>)
    ensures
        match r {
            Some(n) => file_name(path@) == Some(n@),
            None => file_name(path@) is None,
        },
{
    let c = components(path);
    if c.len() == 0 {
        return None;
    }
    let last = c.len() - 1;
    assert(comps_view(c@).last() == c@[last as int]@);
    match &c[last] {
        Component::Normal(n) => Some(n.clone()),
        _ => None,
    }
}

fn push_comp_key(key: &mut Vec<u64>, c: &Component)
    ensures
        final(key)@ == old(key)@ + comp_key(c@),
{
    match c {
        Component::RootDir => {
            key.push(1);
        },
        Component::CurDir => {
            key.push(2);
        },
        Component::ParentDir => {
            key.push(3);
        },
        Component::Normal(n) => {
            let ghost start = key@;
            key.push(4);
            let mut i: usize = 0;
            while i < n.len()
                invariant
                    i <= n.len(),
                    key@ == start + seq![4u64] + n@.take(i as int).map_values(
                        |ch: char| (((ch as u32) as u64) + 1) as u64,
                    ),
                decreases n.len() - i,
            {
                let ch = n[i];
                key.push((((ch as u32) as u64) + 1) as u64);
                i += 1;
                assert(n@.take(i as int).map_values(|ch: char| (((ch as u32) as u64) + 1) as u64)
                    =~= n@.take(i - 1).map_values(|ch: char| (((ch as u32) as u64) + 1) as u64).push(
                    (((ch as u32) as u64) + 1) as u64,
                ));
            }
            assert(n@.take(n.len() as int) =~= n@);
            key.push(0);
            assert(key@ =~= start + comp_key(c@));
        },
    }
}

/// The sort key of a list of components.
pub fn comps_key_of(c: &Vec<Component>) -> (r: Vec<u64>)
    ensures
        r@ == comps_key(comps_view(c@)),
{
    let mut key: Vec<u64> = Vec::new();
    let mut i: usize = 0;
    while i < c.len()
        invariant
            i <= c.len(),
            key@ == comps_key(comps_view(c@).take(i as int)),
        decreases c.len() - i,
    {
        push_comp_key(&mut key, &c[i]);
        i += 1;
        assert(comps_view(c@).take(i as int).drop_last() =~= comps_view(c@).take(i - 1));
    }
    assert(comps_view(c@).take(c.len() as int) =~= comps_view(c@));
    key
}

/// The sort key of a path.
pub fn path_key_of(path: &Vec<char>) -> (r: Vec<u64>)
    ensures
        r@ == path_key(path@),
{
    let c = components(path);
    comps_key_of(&c)
}


/// Text of one component.
pub open spec fn comp_text(c: Comp) -> Seq<char> {
    match c {
        Comp::Root => seq!['/'],
        Comp::Cur => seq!['.'],
        Comp::Parent => seq!['.', '.'],
        Comp::Normal(n) => n,
    }
}

/// A path written from its components: separators between components, none after the root.
pub open spec fn comps_text(cs: Seq<Comp>) -> Seq<char>
    decreases cs.len(),
{
    if cs.len() == 0 {
        seq![]
    } else {
        let prefix = cs.drop_last();
        let head = comps_text(prefix);
        if prefix.len() > 0 && !(prefix.last() is Root) {
            head + seq!['/'] + comp_text(cs.last())
        } else {
            head + comp_text(cs.last())
        }
    }
}

/// `Path::parent`: the path without its last component, unless that component is the
/// root or there is none. The parent is written from its components.
pub open spec fn path_parent(s: Seq<char>) -> Option<Seq<char>> {
    let c = path_components(s);
    if c.len() > 0 && !(c.last() is Root) {
        Some(comps_text(c.drop_last()))
    } else {
        None
    }
}

/// `Path::join` on Unix: an absolute argument replaces the base; otherwise a separator
/// is added when the base is non-empty and does not already end in one.
pub open spec fn path_join(base: Seq<char>, p: Seq<char>) -> Seq<char> {
    if is_rooted(p) {
        p
    } else if base.len() > 0 && base.last() != '/' {
        base + seq!['/'] + p
    } else {
        base + p
    }
}

/// `Path::strip_prefix`: the components after `base`, when `base` is a component prefix.
pub open spec fn path_strip_prefix(path: Seq<char>, base: Seq<char>) -> Option<Seq<char>> {
    if path_starts_with(path, base) {
        Some(comps_text(path_components(path).skip(path_components(base).len() as int)))
    } else {
        None
    }
}

/// `path == root || path.starts_with(root)`.
pub open spec fn path_contained(path: Seq<char>, root: Seq<char>) -> bool {
    path_eq(path, root) || path_starts_with(path, root)
}

fn push_chars(out: &mut Vec<char>, t: &Vec<char>)
    ensures
        final(out)@ == old(out)@ + t@,
{
    let mut i: usize = 0;
    let ghost start = out@;
    while i < t.len()
        invariant
            i <= t.len(),
            out@ == start + t@.take(i as int),
        decreases t.len() - i,
    {
        out.push(t[i]);
        i += 1;
        assert(t@.take(i as int) =~= t@.take(i - 1).push(t@[i - 1]));
    }
    assert(t@.take(t.len() as int) =~= t@);
}

fn component_text(c: &Component) -> (r: Vec<char>)
    ensures
        r@ == comp_text(c@),
{
    match c {
        Component::RootDir => vec!['/'],
        Component::CurDir => vec!['.'],
        Component::ParentDir => vec!['.', '.'],
        Component::Normal(n) => n.clone(),
    }
}

/// Writes the components `from..` of a list as a path.
pub fn comps_to_text(c: &Vec<Component>, from: usize) -> (r: Vec<char>)
    requires
        from <= c.len(),
    ensures
        r@ == comps_text(comps_view(c@).skip(from as int)),
{
    let mut out: Vec<char> = Vec::new();
    let mut i: usize = from;
    let ghost cv = comps_view(c@);
    assert(cv.skip(from as int).take(0) =~= seq![]);
    while i < c.len()
        invariant
            from <= i <= c.len(),
            cv == comps_view(c@),
            out@ == comps_text(cv.skip(from as int).take(i - from)),
        decreases c.len() - i,
    {
        let ghost prefix = cv.skip(from as int).take(i - from);
        let ghost next = cv.skip(from as int).take(i + 1 - from);
        assert(next.drop_last() =~= prefix);
        assert(next.last() == c@[i as int]@);
        let t = component_text(&c[i]);
        if i > from {
            let is_root = match &c[i - 1] {
                Component::RootDir => true,
                _ => false,
            };
            assert(prefix.last() == c@[i - 1]@);
            if !is_root {
                out.push('/');
            }
        }
        push_chars(&mut out, &t);
        i += 1;
    }
    assert(cv.skip(from as int).take(c.len() - from) =~= cv.skip(from as int));
    out
}

/// `Path::parent`.
pub fn parent_of(path: &Vec<char>) -> (r: Option<Vec<char>>)
    ensures
        match r {
            Some(p) => path_parent(path@) == Some(p@),
            None => path_parent(path@) is None,
        },
{
    let mut c = components(path);
    if c.len() == 0 {
        return None;
    }
    let last = c.len() - 1;
    let is_root = match &c[last] {
        Component::RootDir => true,
        _ => false,
    };
    assert(comps_view(c@).last() == c@[last as int]@);
    if is_root {
        return None;
    }
    let ghost full = comps_view(c@);
    c.pop();
    assert(comps_view(c@) =~= full.drop_last());
    let t = comps_to_text(&c, 0);
    assert(comps_view(c@).skip(0) =~= comps_view(c@));
    Some(t)
}

/// `Path::join`.
pub fn join_path(base: &Vec<char>, p: &Vec<char>) -> (r: Vec<char>)
    ensures
        r@ == path_join(base@, p@),
{
    if p.len() > 0 && p[0] == '/' {
        return p.clone();
    }
    let mut out = base.clone();
    if base.len() > 0 && base[base.len() - 1] != '/' {
        out.push('/');
    }
    push_chars(&mut out, p);
    out
}

/// `Path::strip_prefix`.
pub fn strip_prefix_of(path: &Vec<char>, base: &Vec<char>) -> (r: Option<Vec<char>>)
    ensures
        match r {
            Some(t) => path_strip_prefix(path@, base@) == Some(t@),
            None => path_strip_prefix(path@, base@) is None,
        },
{
    let p = components(path);
    let b = components(base);
    if !comps_prefix(&p, &b) {
        return None;
    }
    let t = comps_to_text(&p, b.len());
    Some(t)
}

/// `path == root || path.starts_with(root)`.
pub fn contained(path: &Vec<char>, root: &Vec<char>) -> (r: bool)
    ensures
        r == path_contained(path@, root@),
{
    let p = components(path);
    let b = components(root);
    comps_eq(&p, &b) || comps_prefix(&p, &b)
}


/// A path has itself as file name exactly when it is one normal component equal to
/// the whole text.
pub proof fn lemma_file_name_single(s: Seq<char>)
    ensures
        (file_name(s) == Some(s) && path_components(s).len() == 1) <==> (path_components(s).len()
            == 1 && path_components(s)[0] == Comp::Normal(s)),
{
}

/// Path equality: equal components.
pub fn same_path(a: &Vec<char>, b: &Vec<char>) -> (r: bool)
    ensures
        r == path_eq(a@, b@),
{
    let x = components(a);
    let y = components(b);
    comps_eq(&x, &y)
}

} // verus!
