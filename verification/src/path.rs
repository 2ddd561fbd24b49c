//! Validation of path names.
//!
//! An entry of a collection is named by a relative path whose segments are
//! joined by `/`. Names come from two untrusted places: the file system that
//! is walked when a collection is assembled, and a collection received from a
//! peer. Both directions go through the checks in this module.
use vstd::prelude::*;
use vstd::string::*;

verus! {

/// Why a path or a name was refused.
#[derive(Clone, Copy, Debug, PartialEq, Eq, Structural)]
pub enum InvalidPath {
    /// A component that is not well-formed text.
    Undecodable,
    /// A segment without any character.
    Empty,
    /// A `.` or `..` segment.
    Traversal,
    /// A segment that holds `/` or `\`.
    Separator,
    /// A root marker where a relative path is asked for, or one that is not
    /// the first component.
    Root,
    /// A volume or drive prefix.
    Prefix,
}

/// One component of a file system path, as plain values.
#[derive(Clone, Debug)]
pub enum PathComponent {
    /// A volume or drive prefix.
    Prefix,
    /// The root marker.
    RootDir,
    /// A reference to the current directory, `.`.
    CurDir,
    /// A reference to the parent directory, `..`.
    ParentDir,
    /// An ordinary component that is well-formed text.
    Normal(String),
    /// An ordinary component whose bytes are not well-formed text.
    Undecodable,
}

/// What is wrong with one segment of a name, if anything.
pub open spec fn segment_fault(s: Seq<char>) -> Option<InvalidPath> {
    if s.len() == 0 {
        Some(InvalidPath::Empty)
    } else if s == seq!['.'] || s == seq!['.', '.'] {
        Some(InvalidPath::Traversal)
    } else if s.contains('/') || s.contains('\\') {
        Some(InvalidPath::Separator)
    } else {
        None
    }
}

/// The fault of the first faulty segment of `parts`, if there is one.
pub open spec fn first_segment_fault(parts: Seq<Seq<char>>) -> Option<InvalidPath>
    decreases parts.len(),
{
    if parts.len() == 0 {
        None
    } else {
        match first_segment_fault(parts.drop_last()) {
            Some(e) => Some(e),
            None => segment_fault(parts.last()),
        }
    }
}

/// What is wrong with one component of a path, if anything. `first` says
/// whether it is the path's first component.
pub open spec fn component_fault(c: PathComponent, first: bool, must_be_relative: bool) -> Option<
    InvalidPath,
> {
    match c {
        PathComponent::Normal(s) => segment_fault(s@),
        PathComponent::Undecodable => Some(InvalidPath::Undecodable),
        PathComponent::RootDir => if must_be_relative || !first {
            Some(InvalidPath::Root)
        } else {
            None
        },
        PathComponent::Prefix => Some(InvalidPath::Prefix),
        PathComponent::CurDir => Some(InvalidPath::Traversal),
        PathComponent::ParentDir => Some(InvalidPath::Traversal),
    }
}

/// The fault of the first faulty component of `cs`, if there is one.
pub open spec fn first_fault(cs: Seq<PathComponent>, must_be_relative: bool) -> Option<InvalidPath>
    decreases cs.len(),
{
    if cs.len() == 0 {
        None
    } else {
        match first_fault(cs.drop_last(), must_be_relative) {
            Some(e) => Some(e),
            None => component_fault(cs.last(), cs.len() == 1, must_be_relative),
        }
    }
}

/// What keeps a path from having a name, if anything: it has no component
/// at all, or one of its components has a fault.
pub open spec fn path_fault(cs: Seq<PathComponent>, must_be_relative: bool) -> Option<InvalidPath> {
    if cs.len() == 0 {
        Some(InvalidPath::Empty)
    } else {
        first_fault(cs, must_be_relative)
    }
}

/// The segments joined by `/`.
pub open spec fn join(parts: Seq<Seq<char>>) -> Seq<char>
    decreases parts.len(),
{
    if parts.len() == 0 {
        Seq::empty()
    } else if parts.len() == 1 {
        parts[0]
    } else {
        join(parts.drop_last()) + seq!['/'] + parts.last()
    }
}

/// The segments between the `/` of a name. A name without `/` is one
/// segment; the empty name is one empty segment.
pub open spec fn split(s: Seq<char>) -> Seq<Seq<char>>
    decreases s.len(),
{
    if s.len() == 0 {
        seq![Seq::empty()]
    } else {
        let head = split(s.drop_last());
        if s.last() == '/' {
            head.push(Seq::empty())
        } else {
            head.drop_last().push(head.last().push(s.last()))
        }
    }
}

/// The text of each string.
pub open spec fn texts(v: Seq<String>) -> Seq<Seq<char>> {
    Seq::new(v.len(), |i: int| v[i]@)
}

/// The text of each ordinary component, and the empty text for any other.
pub open spec fn component_texts(cs: Seq<PathComponent>) -> Seq<Seq<char>> {
    Seq::new(
        cs.len(),
        |i: int|
            match cs[i] {
                PathComponent::Normal(s) => s@,
                _ => Seq::empty(),
            },
    )
}

/// Whether the path starts at the root marker.
pub open spec fn is_rooted(cs: Seq<PathComponent>) -> bool {
    cs.len() > 0 && cs[0] is RootDir
}

/// The name of a path without faults: `/` for a leading root marker, then
/// the ordinary components joined by `/`.
pub open spec fn path_text(cs: Seq<PathComponent>) -> Seq<char> {
    if is_rooted(cs) {
        seq!['/'] + join(component_texts(cs.drop_first()))
    } else {
        join(component_texts(cs))
    }
}

/// A path with one more segment below it: a `/` is set between the two
/// unless the path is empty or ends in one already.
pub open spec fn pushed(path: Seq<char>, segment: Seq<char>) -> Seq<char> {
    if path.len() > 0 && path.last() != '/' {
        path + seq!['/'] + segment
    } else {
        path + segment
    }
}

/// The root with each segment pushed below it in turn.
pub open spec fn export_text(root: Seq<char>, parts: Seq<Seq<char>>) -> Seq<char>
    decreases parts.len(),
{
    if parts.len() == 0 {
        root
    } else {
        pushed(export_text(root, parts.drop_last()), parts.last())
    }
}

/// Checks one segment of a name: it must not be empty, `.` or `..`, and must
/// hold neither `/` nor `\`.
pub fn validate_path_component(component: &str) -> (r: Result<(), InvalidPath>)
    ensures
        r == match segment_fault(component@) {
            Some(e) => Err::<(), InvalidPath>(e),
            None => Ok::<(), InvalidPath>(()),
        },
{
    let n: usize = component.unicode_len();
    if n == 0 {
        return Err(InvalidPath::Empty);
    }
    if n == 1 && component.get_char(0) == '.' {
        assert(component@ =~= seq!['.']);
        return Err(InvalidPath::Traversal);
    }
    if n == 2 && component.get_char(0) == '.' && component.get_char(1) == '.' {
        assert(component@ =~= seq!['.', '.']);
        return Err(InvalidPath::Traversal);
    }
    assert(component@ != seq!['.']) by {
        if component@ == seq!['.'] {
            assert(seq!['.'].len() == 1 && seq!['.'][0] == '.');
        }
    }
    assert(component@ != seq!['.', '.']) by {
        if component@ == seq!['.', '.'] {
            assert(seq!['.', '.'].len() == 2 && seq!['.', '.'][0] == '.' && seq!['.', '.'][1]
                == '.');
        }
    }
    let mut i: usize = 0;
    while i < n
        invariant
            i <= n,
            n == component@.len(),
            forall|j: int| 0 <= j < i ==> component@[j] != '/' && component@[j] != '\\',
        decreases n - i,
    {
        let c = component.get_char(i);
        if c == '/' || c == '\\' {
            assert(component@.contains(c));
            return Err(InvalidPath::Separator);
        }
        i = i + 1;
    }
    Ok(())
}

/// Joins the segments by `/`.
pub fn join_segments(parts: &Vec<String>) -> (out: String)
    ensures
        out@ == join(texts(parts@)),
{
    let mut out = String::new();
    let mut i: usize = 0;
    while i < parts.len()
        invariant
            i <= parts.len(),
            out@ == join(texts(parts@).take(i as int)),
        decreases parts.len() - i,
    {
        if i > 0 {
            out.append("/");
        }
        out.append(parts[i].as_str());
        proof {
            reveal_strlit("/");
            let t = texts(parts@);
            assert(t.take(i + 1).drop_last() =~= t.take(i as int));
            assert(t.take(i + 1).last() == parts[i as int]@);
            assert("/"@ =~= seq!['/']);
            assert(out@ =~= join(t.take(i + 1)));
        }
        i = i + 1;
    }
    assert(texts(parts@).take(parts.len() as int) =~= texts(parts@));
    out
}

/// Cuts a name at each `/`.
pub fn split_name(name: &str) -> (parts: Vec<String>)
    ensures
        texts(parts@) == split(name@),
{
    let n: usize = name.unicode_len();
    let mut parts: Vec<String> = Vec::new();
    let mut start: usize = 0;
    let mut i: usize = 0;
    assert(name@.take(0) =~= Seq::<char>::empty());
    assert(texts(parts@).push(name@.subrange(0, 0)) =~= split(name@.take(0)));
    while i < n
        invariant
            start <= i <= n,
            n == name@.len(),
            texts(parts@).push(name@.subrange(start as int, i as int)) == split(
                name@.take(i as int),
            ),
        decreases n - i,
    {
        let c = name.get_char(i);
        proof {
            assert(name@.take(i + 1).drop_last() =~= name@.take(i as int));
            assert(name@.take(i + 1).last() == c);
        }
        if c == '/' {
            let ghost before = texts(parts@);
            let piece = name.substring_char(start, i);
            parts.push(piece.to_owned());
            proof {
                assert(texts(parts@) =~= before.push(name@.subrange(start as int, i as int)));
                assert(name@.subrange(i + 1, i + 1) =~= Seq::<char>::empty());
            }
            start = i + 1;
        } else {
            proof {
                let head = split(name@.take(i as int));
                assert(head.drop_last() =~= texts(parts@));
                assert(head.last().push(c) =~= name@.subrange(start as int, i + 1));
            }
        }
        i = i + 1;
    }
    let ghost before = texts(parts@);
    let piece = name.substring_char(start, n);
    parts.push(piece.to_owned());
    proof {
        assert(texts(parts@) =~= before.push(name@.subrange(start as int, n as int)));
        assert(name@.take(n as int) =~= name@);
    }
    parts
}

/// Turns the components of a path into a name: the ordinary components
/// joined by `/`, after a `/` where the path starts at the root marker.
///
/// A path without components has no name and is refused as empty. With
/// `must_be_relative` a root marker is refused. A root marker elsewhere
/// than in first place, a prefix, `.`, `..`, a component that is not
/// well-formed text, an empty component and one that holds `/` or `\` are
/// always refused. The error is that of the first such component.
pub fn canonicalized_path_to_string(components: &Vec<PathComponent>, must_be_relative: bool) -> (r:
    Result<String, InvalidPath>)
    ensures
        match r {
            Ok(s) => path_fault(components@, must_be_relative) is None && s@ == path_text(
                components@,
            ),
            Err(e) => path_fault(components@, must_be_relative) == Some(e),
        },
{
    let n: usize = components.len();
    if n == 0 {
        return Err(InvalidPath::Empty);
    }
    let mut parts: Vec<String> = Vec::new();
    let mut rooted: bool = false;
    let mut i: usize = 0;
    while i < n
        invariant
            i <= n,
            n == components@.len(),
            first_fault(components@.take(i as int), must_be_relative) is None,
            rooted == (i > 0 && is_rooted(components@)),
            texts(parts@) == component_texts(
                components@.subrange(if rooted { 1int } else { 0int }, i as int),
            ),
        decreases n - i,
    {
        proof {
            assert(components@.take(i + 1).drop_last() =~= components@.take(i as int));
            assert(components@.take(i + 1).last() == components@[i as int]);
        }
        let ghost before = texts(parts@);
        let ghost lo = if rooted { 1int } else { 0int };
        match &components[i] {
            PathComponent::Normal(s) => {
                match validate_path_component(s.as_str()) {
                    Ok(()) => {},
                    Err(e) => {
                        proof {
                            lemma_fault_stays(components@, must_be_relative, i + 1);
                        }
                        return Err(e);
                    },
                }
                parts.push(s.clone());
                proof {
                    assert(texts(parts@) =~= before.push(s@));
                    assert(component_texts(components@.subrange(lo, i + 1)) =~= component_texts(
                        components@.subrange(lo, i as int),
                    ).push(s@));
                }
            },
            PathComponent::RootDir => {
                if must_be_relative || i != 0 {
                    proof {
                        lemma_fault_stays(components@, must_be_relative, i + 1);
                    }
                    return Err(InvalidPath::Root);
                }
                rooted = true;
                proof {
                    assert(component_texts(components@.subrange(1, 1)) =~= Seq::<
                        Seq<char>,
                    >::empty());
                    assert(texts(parts@) =~= Seq::<Seq<char>>::empty());
                }
            },
            PathComponent::Undecodable => {
                proof {
                    lemma_fault_stays(components@, must_be_relative, i + 1);
                }
                return Err(InvalidPath::Undecodable);
            },
            PathComponent::Prefix => {
                proof {
                    lemma_fault_stays(components@, must_be_relative, i + 1);
                }
                return Err(InvalidPath::Prefix);
            },
            PathComponent::CurDir => {
                proof {
                    lemma_fault_stays(components@, must_be_relative, i + 1);
                }
                return Err(InvalidPath::Traversal);
            },
            PathComponent::ParentDir => {
                proof {
                    lemma_fault_stays(components@, must_be_relative, i + 1);
                }
                return Err(InvalidPath::Traversal);
            },
        }
        i = i + 1;
    }
    proof {
        assert(components@.take(n as int) =~= components@);
        if rooted {
            assert(components@.subrange(1, n as int) =~= components@.drop_first());
        } else {
            assert(components@.subrange(0, n as int) =~= components@);
        }
    }
    let joined = join_segments(&parts);
    if rooted {
        let mut out = String::new();
        out.append("/");
        out.append(joined.as_str());
        proof {
            reveal_strlit("/");
            assert("/"@ =~= seq!['/']);
            assert(out@ =~= seq!['/'] + joined@);
        }
        Ok(out)
    } else {
        Ok(joined)
    }
}

/// A fault among the first `k` components is the fault of the whole path.
pub proof fn lemma_fault_stays(cs: Seq<PathComponent>, must_be_relative: bool, k: int)
    requires
        0 <= k <= cs.len(),
        first_fault(cs.take(k), must_be_relative) is Some,
    ensures
        first_fault(cs, must_be_relative) == first_fault(cs.take(k), must_be_relative),
    decreases cs.len() - k,
{
    if k < cs.len() {
        assert(cs.take(k + 1).drop_last() =~= cs.take(k));
        lemma_fault_stays(cs, must_be_relative, k + 1);
    } else {
        assert(cs.take(k) =~= cs);
    }
}

/// Pushes one segment below a path, with a `/` between the two unless the
/// path is empty or ends in one already.
pub fn push_segment(path: &mut String, segment: &str)
    ensures
        final(path)@ == pushed(old(path)@, segment@),
{
    let n: usize = path.as_str().unicode_len();
    if n > 0 && path.as_str().get_char(n - 1) != '/' {
        path.append("/");
        proof {
            reveal_strlit("/");
            assert("/"@ =~= seq!['/']);
        }
    }
    path.append(segment);
}

/// The path below `root` at which the entry called `name` is written.
///
/// The name is cut at each `/`, every segment is checked as
/// [`validate_path_component`] does, and the segments are pushed below the
/// root in turn. The error is that of the first segment that fails.
pub fn get_export_path(root: &str, name: &str) -> (r: Result<String, InvalidPath>)
    ensures
        match r {
            Ok(p) => first_segment_fault(split(name@)) is None && p@ == export_text(
                root@,
                split(name@),
            ),
            Err(e) => first_segment_fault(split(name@)) == Some(e),
        },
{
    let parts = split_name(name);
    let mut path = root.to_owned();
    let mut i: usize = 0;
    while i < parts.len()
        invariant
            i <= parts.len(),
            texts(parts@) == split(name@),
            first_segment_fault(texts(parts@).take(i as int)) is None,
            path@ == export_text(root@, texts(parts@).take(i as int)),
        decreases parts.len() - i,
    {
        proof {
            let t = texts(parts@);
            assert(t.take(i + 1).drop_last() =~= t.take(i as int));
            assert(t.take(i + 1).last() == parts[i as int]@);
        }
        match validate_path_component(parts[i].as_str()) {
            Ok(()) => {},
            Err(e) => {
                proof {
                    lemma_segment_fault_stays(texts(parts@), i + 1);
                }
                return Err(e);
            },
        }
        push_segment(&mut path, parts[i].as_str());
        i = i + 1;
    }
    assert(texts(parts@).take(parts.len() as int) =~= texts(parts@));
    Ok(path)
}

/// A fault among the first `k` segments is the fault of the whole name.
pub proof fn lemma_segment_fault_stays(parts: Seq<Seq<char>>, k: int)
    requires
        0 <= k <= parts.len(),
        first_segment_fault(parts.take(k)) is Some,
    ensures
        first_segment_fault(parts) == first_segment_fault(parts.take(k)),
    decreases parts.len() - k,
{
    if k < parts.len() {
        assert(parts.take(k + 1).drop_last() =~= parts.take(k));
        lemma_segment_fault_stays(parts, k + 1);
    } else {
        assert(parts.take(k) =~= parts);
    }
}

/// A list of segments has no fault exactly if none of its segments has one.
pub proof fn lemma_no_fault_means_each(parts: Seq<Seq<char>>)
    ensures
        first_segment_fault(parts) is None <==> forall|i: int|
            0 <= i < parts.len() ==> segment_fault(#[trigger] parts[i]) is None,
    decreases parts.len(),
{
    if parts.len() > 0 {
        lemma_no_fault_means_each(parts.drop_last());
        if first_segment_fault(parts) is None {
            assert forall|i: int| 0 <= i < parts.len() implies segment_fault(
                #[trigger] parts[i],
            ) is None by {
                if i < parts.len() - 1 {
                    assert(parts.drop_last()[i] == parts[i]);
                }
            }
        }
        if forall|i: int| 0 <= i < parts.len() ==> segment_fault(#[trigger] parts[i]) is None {
            assert forall|i: int| 0 <= i < parts.drop_last().len() implies segment_fault(
                #[trigger] parts.drop_last()[i],
            ) is None by {
                assert(parts.drop_last()[i] == parts[i]);
            }
            assert(segment_fault(parts[parts.len() - 1]) is None);
        }
    }
}

/// Every component of a relative path without faults is an ordinary one
/// whose text has no fault.
pub proof fn lemma_relative_components(cs: Seq<PathComponent>)
    requires
        first_fault(cs, true) is None,
    ensures
        first_segment_fault(component_texts(cs)) is None,
        forall|i: int| 0 <= i < cs.len() ==> (#[trigger] cs[i]) is Normal,
    decreases cs.len(),
{
    if cs.len() > 0 {
        lemma_relative_components(cs.drop_last());
        assert(component_texts(cs).drop_last() =~= component_texts(cs.drop_last()));
        assert forall|i: int| 0 <= i < cs.len() implies (#[trigger] cs[i]) is Normal by {
            if i < cs.len() - 1 {
                assert(cs.drop_last()[i] == cs[i]);
            }
        }
    }
}

/// Text without `/` that is set behind a name lengthens its last segment.
pub proof fn lemma_split_append(a: Seq<char>, b: Seq<char>)
    requires
        !b.contains('/'),
    ensures
        split(a).len() > 0,
        split(a + b) == split(a).drop_last().push(split(a).last() + b),
    decreases b.len(),
{
    lemma_split_nonempty(a);
    if b.len() == 0 {
        assert(a + b =~= a);
        assert(split(a).last() + b =~= split(a).last());
        assert(split(a).drop_last().push(split(a).last()) =~= split(a));
    } else {
        let c = b.last();
        assert(b[b.len() - 1] == c);
        assert(c != '/');
        assert forall|j: int| 0 <= j < b.drop_last().len() implies b.drop_last()[j] != '/' by {
            assert(b.drop_last()[j] == b[j]);
        }
        lemma_split_append(a, b.drop_last());
        assert((a + b).drop_last() =~= a + b.drop_last());
        assert((a + b).last() == c);
        let h = split(a + b.drop_last());
        assert(h.drop_last() =~= split(a).drop_last());
        assert(h.last().push(c) =~= split(a).last() + b);
    }
}

/// Every name has at least one segment.
pub proof fn lemma_split_nonempty(a: Seq<char>)
    ensures
        split(a).len() > 0,
    decreases a.len(),
{
    if a.len() > 0 {
        lemma_split_nonempty(a.drop_last());
    }
}

/// Cutting a joined name gives the segments back, as long as there is at
/// least one segment and none of them holds `/`.
pub proof fn lemma_split_join(parts: Seq<Seq<char>>)
    requires
        parts.len() > 0,
        forall|i: int| 0 <= i < parts.len() ==> !(#[trigger] parts[i]).contains('/'),
    ensures
        split(join(parts)) == parts,
    decreases parts.len(),
{
    if parts.len() == 1 {
        let e = Seq::<char>::empty();
        lemma_split_append(e, parts[0]);
        assert(e + parts[0] =~= parts[0]);
        assert(split(e) =~= seq![e]);
        assert(split(e).drop_last().push(split(e).last() + parts[0]) =~= parts);
    } else {
        let front = parts.drop_last();
        assert forall|i: int| 0 <= i < front.len() implies !(#[trigger] front[i]).contains(
            '/',
        ) by {
            assert(front[i] == parts[i]);
        }
        lemma_split_join(front);
        let j = join(front) + seq!['/'];
        assert(j.drop_last() =~= join(front));
        assert(j.last() == '/');
        assert(split(j) == front.push(Seq::<char>::empty()));
        assert(!parts[parts.len() - 1].contains('/'));
        lemma_split_append(j, parts.last());
        assert(split(j).drop_last() =~= front);
        assert(Seq::<char>::empty() + parts.last() =~= parts.last());
        assert(front.push(parts.last()) =~= parts);
    }
}

/// The name of a relative path without faults is made of the path's own
/// components: cut at each `/` it gives them back, so it holds no `.` or
/// `..` segment, no `\`, no empty segment and no leading `/`, and below any
/// root it is written where its components lead.
pub proof fn lemma_name_keeps_components(cs: Seq<PathComponent>, root: Seq<char>)
    requires
        path_fault(cs, true) is None,
    ensures
        split(path_text(cs)) == component_texts(cs),
        first_segment_fault(split(path_text(cs))) is None,
        export_text(root, split(path_text(cs))) == export_text(root, component_texts(cs)),
{
    lemma_relative_components(cs);
    let parts = component_texts(cs);
    lemma_no_fault_means_each(parts);
    assert forall|i: int| 0 <= i < parts.len() implies !(#[trigger] parts[i]).contains('/') by {
        assert(segment_fault(parts[i]) is None);
    }
    lemma_split_join(parts);
    assert(cs[0] is Normal);
}

/// Two relative paths that have a name, and the same one, have the same
/// components: the names of distinct paths are distinct.
pub proof fn lemma_same_name_same_components(a: Seq<PathComponent>, b: Seq<PathComponent>)
    requires
        path_fault(a, true) is None,
        path_fault(b, true) is None,
        path_text(a) == path_text(b),
    ensures
        component_texts(a) == component_texts(b),
{
    let e = Seq::<char>::empty();
    lemma_name_keeps_components(a, e);
    lemma_name_keeps_components(b, e);
}

/// Whatever segments are pushed below a root, the path starts with the root.
pub proof fn lemma_export_below_root(root: Seq<char>, parts: Seq<Seq<char>>)
    ensures
        root.is_prefix_of(export_text(root, parts)),
    decreases parts.len(),
{
    if parts.len() > 0 {
        lemma_export_below_root(root, parts.drop_last());
        let before = export_text(root, parts.drop_last());
        let after = export_text(root, parts);
        assert(before.is_prefix_of(after));
        assert(after.subrange(0, root.len() as int) =~= before.subrange(0, root.len() as int));
    }
}

/// An entry's name is never empty, never starts with `/`, and is written
/// below a root exactly where the components of its path lead: every one of
/// its segments passes the check that is made again before that.
pub proof fn lemma_entry_name_is_safe(cs: Seq<PathComponent>, root: Seq<char>)
    requires
        path_fault(cs, true) is None,
    ensures
        path_text(cs).len() > 0,
        path_text(cs)[0] != '/',
        split(path_text(cs)) == component_texts(cs),
        first_segment_fault(split(path_text(cs))) is None,
        export_text(root, split(path_text(cs))) == export_text(root, component_texts(cs)),
        root.is_prefix_of(export_text(root, split(path_text(cs)))),
{
    lemma_name_keeps_components(cs, root);
    lemma_export_below_root(root, split(path_text(cs)));
    lemma_relative_components(cs);
    let parts = component_texts(cs);
    lemma_no_fault_means_each(parts);
    assert(segment_fault(parts[0]) is None);
    assert(parts[0].len() > 0);
    assert(!parts[0].contains('/'));
    assert(parts[0][0] != '/') by {
        if parts[0][0] == '/' {
            assert(parts[0].contains('/'));
        }
    }
    lemma_join_starts_with_first(parts);
}

/// A joined name starts with its first segment.
pub proof fn lemma_join_starts_with_first(parts: Seq<Seq<char>>)
    requires
        parts.len() > 0,
    ensures
        parts[0].is_prefix_of(join(parts)),
    decreases parts.len(),
{
    if parts.len() > 1 {
        lemma_join_starts_with_first(parts.drop_last());
        assert(parts.drop_last()[0] == parts[0]);
        let head = join(parts.drop_last());
        assert(head.is_prefix_of(join(parts)));
        assert(join(parts).subrange(0, parts[0].len() as int) =~= head.subrange(
            0,
            parts[0].len() as int,
        ));
    }
}

/// The segments of a path's text that stand for a component: all that lie
/// between its `/`, but for an empty one at the end of a longer path, which
/// a trailing `/` leaves behind.
pub open spec fn component_segments(text: Seq<char>) -> Seq<Seq<char>> {
    let parts = split(text);
    if parts.len() > 1 && parts.last().len() == 0 {
        parts.drop_last()
    } else {
        parts
    }
}

/// Whether the component is what the segment stands for: the root marker
/// for an empty segment in front of others, `.` and `..` for themselves,
/// and an ordinary component with the segment's text for anything else.
/// `leading` says that the segment is the first of several.
pub open spec fn stands_for(c: PathComponent, segment: Seq<char>, leading: bool) -> bool {
    if leading && segment.len() == 0 {
        c is RootDir
    } else if segment == seq!['.'] {
        c is CurDir
    } else if segment == seq!['.', '.'] {
        c is ParentDir
    } else {
        c matches PathComponent::Normal(s) && s@ == segment
    }
}

/// Reads the components of a path from its text, with `/` between them.
///
/// Nothing is tidied away but one trailing `/`: a `.` stays a component
/// wherever it stands, and two `/` in a row leave an empty ordinary
/// component between them, so that the sanitizer sees and refuses both.
pub fn components_of(path: &str) -> (cs: Vec<PathComponent>)
    ensures
        cs@.len() == component_segments(path@).len(),
        forall|i: int|
            0 <= i < cs@.len() ==> stands_for(
                #[trigger] cs@[i],
                component_segments(path@)[i],
                i == 0 && split(path@).len() > 1,
            ),
{
    let parts = split_name(path);
    let total: usize = parts.len();
    proof {
        lemma_split_nonempty(path@);
    }
    let keep: usize = if total > 1 && parts[total - 1].as_str().unicode_len() == 0 {
        total - 1
    } else {
        total
    };
    assert(component_segments(path@) =~= texts(parts@).take(keep as int));
    let mut cs: Vec<PathComponent> = Vec::new();
    let mut i: usize = 0;
    while i < keep
        invariant
            i <= keep <= total,
            total == parts@.len(),
            cs@.len() == i,
            forall|j: int|
                0 <= j < i ==> stands_for(#[trigger] cs@[j], parts@[j]@, j == 0 && total > 1),
        decreases keep - i,
    {
        let segment = &parts[i];
        let n: usize = segment.as_str().unicode_len();
        let ghost before = cs@;
        let c = if i == 0 && total > 1 && n == 0 {
            PathComponent::RootDir
        } else if n == 1 && segment.as_str().get_char(0) == '.' {
            assert(segment@ =~= seq!['.']);
            PathComponent::CurDir
        } else if n == 2 && segment.as_str().get_char(0) == '.' && segment.as_str().get_char(1)
            == '.' {
            assert(segment@ =~= seq!['.', '.']);
            PathComponent::ParentDir
        } else {
            assert(segment@ != seq!['.']) by {
                if segment@ == seq!['.'] {
                    assert(seq!['.'].len() == 1 && seq!['.'][0] == '.');
                }
            }
            assert(segment@ != seq!['.', '.']) by {
                if segment@ == seq!['.', '.'] {
                    assert(seq!['.', '.'].len() == 2 && seq!['.', '.'][0] == '.' && seq![
                        '.',
                        '.',
                    ][1] == '.');
                }
            }
            PathComponent::Normal(segment.clone())
        };
        cs.push(c);
        assert(forall|j: int| 0 <= j < i ==> cs@[j] == before[j]);
        i = i + 1;
    }
    cs
}

} // verus!
