//! Component names and the paths they form.
use vstd::prelude::*;

use crate::error::CoreError;
use crate::text::{chars_of, split_text};

verus! {

/// The characters that no component name holds: the path separator, and the
/// wildcards of key expressions.
pub open spec fn is_reserved(c: char) -> bool {
    c == '/' || c == '*' || c == '$' || c == '?' || c == '#'
}

/// Whether a text is a component name: not empty, and free of reserved
/// characters.
pub open spec fn valid_id(id: Seq<char>) -> bool {
    id.len() > 0 && forall|i: int| 0 <= i < id.len() ==> !is_reserved(#[trigger] id[i])
}

/// A single component name: one level of the component tree.
///
/// Non-empty, and free of `/` (the path separator) and key-expression
/// wildcard characters, since ids are embedded in both paths and key
/// expressions.
#[derive(Debug, Eq, PartialOrd, Ord, Hash)]
pub struct ComponentId(String);

impl View for ComponentId {
    type V = Seq<char>;

    closed spec fn view(&self) -> Seq<char> {
        self.0@
    }
}

impl ComponentId {
    #[verifier::type_invariant]
    spec fn is_valid(self) -> bool {
        valid_id(self.0@)
    }

    /// A component name; refuses text that is none, and hands it back in the
    /// error.
    pub fn new(id: &str) -> (made: Result<Self, CoreError>)
        ensures
            match made {
                Ok(name) => valid_id(id@) && name@ == id@,
                Err(error) => !valid_id(id@) && (error matches CoreError::InvalidComponentId(text)
                    && text@ == id@),
            },
    {
        if name_is_valid(id) {
            Ok(ComponentId(id.to_owned()))
        } else {
            Err(CoreError::InvalidComponentId(id.to_owned()))
        }
    }

    /// The name as text.
    pub fn as_str(&self) -> (text: &str)
        ensures
            text@ == self@,
            valid_id(text@),
    {
        proof {
            use_type_invariant(self);
        }
        self.0.as_str()
    }

    /// The name as an owned text.
    pub fn to_string(&self) -> (text: String)
        ensures
            text@ == self@,
            valid_id(text@),
    {
        proof {
            use_type_invariant(self);
        }
        self.0.clone()
    }
}

impl Clone for ComponentId {
    fn clone(&self) -> (copy: Self)
        ensures
            copy == *self,
    {
        proof {
            use_type_invariant(self);
        }
        ComponentId(self.0.clone())
    }
}

impl PartialEq for ComponentId {
    fn eq(&self, other: &Self) -> (same: bool) {
        self.0 == other.0
    }
}

impl vstd::std_specs::cmp::PartialEqSpecImpl for ComponentId {
    open spec fn obeys_eq_spec() -> bool {
        true
    }

    open spec fn eq_spec(&self, other: &Self) -> bool {
        self@ == other@
    }
}

/// Whether a text is a component name.
pub fn name_is_valid(id: &str) -> (valid: bool)
    ensures
        valid == valid_id(id@),
{
    let chars = chars_of(id);
    let mut i: usize = 0;
    while i < chars.len()
        invariant
            chars@ == id@,
            0 <= i <= chars@.len(),
            forall|j: int| 0 <= j < i ==> !is_reserved(#[trigger] chars@[j]),
        decreases chars@.len() - i,
    {
        let c = chars[i];
        if c == '/' || c == '*' || c == '$' || c == '?' || c == '#' {
            return false;
        }
        i += 1;
    }
    chars.len() > 0
}

/// The views of a sequence of names.
pub open spec fn names(ids: Seq<ComponentId>) -> Seq<Seq<char>> {
    ids.map_values(|id: ComponentId| id@)
}

/// Whether every segment is a component name.
pub open spec fn valid_path(path: Seq<Seq<char>>) -> bool {
    forall|i: int| 0 <= i < path.len() ==> valid_id(#[trigger] path[i])
}

/// A path written with `/` between its segments; the root is the empty text.
pub open spec fn path_text(path: Seq<Seq<char>>) -> Seq<char> {
    crate::text::join(path, '/')
}

/// The first of `parts` that is no component name.
pub open spec fn first_invalid(parts: Seq<Seq<char>>) -> Option<Seq<char>>
    decreases parts.len(),
{
    if parts.len() == 0 {
        None
    } else {
        match first_invalid(parts.drop_last()) {
            Some(part) => Some(part),
            None => if valid_id(parts.last()) {
                None
            } else {
                Some(parts.last())
            },
        }
    }
}

/// What a `/`-separated text reads as: the empty text is the root, and any
/// other text is its parts, unless one of them is no component name.
pub open spec fn parse_path(text: Seq<char>) -> Result<Seq<Seq<char>>, Seq<char>> {
    if text.len() == 0 {
        Ok(Seq::empty())
    } else {
        match first_invalid(crate::text::split(text, '/')) {
            None => Ok(crate::text::split(text, '/')),
            Some(part) => Err(part),
        }
    }
}

/// No part is refused exactly where every part is a name.
proof fn lemma_first_invalid(parts: Seq<Seq<char>>)
    ensures
        first_invalid(parts) is None <==> valid_path(parts),
    decreases parts.len(),
{
    if parts.len() > 0 {
        let front = parts.drop_last();
        lemma_first_invalid(front);
        if valid_path(parts) {
            assert forall|i: int| 0 <= i < front.len() implies valid_id(#[trigger] front[i]) by {
                assert(valid_id(parts[i]));
            }
            assert(valid_id(parts[parts.len() - 1]));
        }
        if first_invalid(parts) is None {
            assert forall|i: int| 0 <= i < parts.len() implies valid_id(#[trigger] parts[i]) by {
                if i < front.len() {
                    assert(valid_id(front[i]));
                }
            }
        }
    }
}

/// A part that was refused stays refused when parts follow it.
proof fn lemma_first_invalid_prefix(parts: Seq<Seq<char>>, count: int)
    requires
        0 <= count <= parts.len(),
        first_invalid(parts.take(count)) is Some,
    ensures
        first_invalid(parts) == first_invalid(parts.take(count)),
    decreases parts.len() - count,
{
    if count == parts.len() {
        assert(parts.take(count) =~= parts);
    } else {
        assert(parts.take(count + 1).drop_last() =~= parts.take(count));
        lemma_first_invalid_prefix(parts, count + 1);
    }
}

/// Writing a path and reading it back gives the path.
pub proof fn law_parse_undoes_display(path: Seq<Seq<char>>)
    requires
        valid_path(path),
    ensures
        parse_path(path_text(path)) == Ok::<Seq<Seq<char>>, Seq<char>>(path),
{
    if path.len() == 0 {
        assert(path =~= Seq::<Seq<char>>::empty());
    } else {
        assert forall|i: int| 0 <= i < path.len() implies !(#[trigger] path[i]).contains('/') by {
            assert(valid_id(path[i]));
            if path[i].contains('/') {
                let j = choose|j: int| 0 <= j < path[i].len() && path[i][j] == '/';
                assert(!is_reserved(path[i][j]));
            }
        }
        crate::text::law_split_undoes_join(path, '/');
        lemma_first_invalid(path);
        if path_text(path).len() == 0 {
            assert(path_text(path) =~= Seq::<char>::empty());
            assert(crate::text::split(path_text(path), '/')[0].len() == 0);
            assert(valid_id(path[0]));
        }
    }
}

/// A text is a component name exactly where it is not empty and holds neither
/// the path separator nor one of the characters `*`, `$`, `?` and `#`.
pub proof fn law_which_texts_are_names(id: Seq<char>)
    ensures
        valid_id(id) <==> id.len() > 0 && !id.contains('/') && !id.contains('*') && !id.contains(
            '$',
        ) && !id.contains('?') && !id.contains('#'),
{
    if valid_id(id) {
        assert forall|c: char| is_reserved(c) implies !id.contains(c) by {
            if id.contains(c) {
                let i = choose|i: int| 0 <= i < id.len() && id[i] == c;
                assert(!is_reserved(id[i]));
            }
        }
        assert(is_reserved('/') && is_reserved('*') && is_reserved('$') && is_reserved('?')
            && is_reserved('#'));
    } else if id.len() > 0 {
        let i = choose|i: int| 0 <= i < id.len() && is_reserved(#[trigger] id[i]);
        assert(id.contains(id[i]));
    }
}

/// A text reads as its segments where every one is a name, and is refused for
/// the first that is none; no text reads as the root.
pub proof fn law_what_a_path_text_reads_as(segments: Seq<Seq<char>>, i: int)
    requires
        segments.len() > 0,
        forall|k: int| 0 <= k < segments.len() ==> !(#[trigger] segments[k]).contains('/'),
        crate::text::join(segments, '/').len() > 0,
    ensures
        parse_path(Seq::<char>::empty()) == Ok::<Seq<Seq<char>>, Seq<char>>(
            Seq::<Seq<char>>::empty(),
        ),
        (forall|k: int| 0 <= k < segments.len() ==> valid_id(#[trigger] segments[k]))
            ==> parse_path(crate::text::join(segments, '/')) == Ok::<Seq<Seq<char>>, Seq<char>>(
            segments,
        ),
        0 <= i < segments.len() && !valid_id(segments[i]) && (forall|k: int|
            0 <= k < i ==> valid_id(#[trigger] segments[k])) ==> parse_path(
            crate::text::join(segments, '/'),
        ) == Err::<Seq<Seq<char>>, Seq<char>>(segments[i]),
{
    crate::text::law_split_undoes_join(segments, '/');
    lemma_first_invalid(segments);
    if 0 <= i < segments.len() && !valid_id(segments[i]) && (forall|k: int|
        0 <= k < i ==> valid_id(#[trigger] segments[k])) {
        let front = segments.take(i);
        assert(valid_path(front)) by {
            assert forall|k: int| 0 <= k < front.len() implies valid_id(#[trigger] front[k]) by {
                assert(valid_id(segments[k]));
            }
        }
        lemma_first_invalid(front);
        let more = segments.take(i + 1);
        assert(more.drop_last() =~= front);
        assert(first_invalid(more) == Some(segments[i]));
        lemma_first_invalid_prefix(segments, i + 1);
    }
}

/// Reading a text as a path and writing the path back gives the text.
pub proof fn law_display_undoes_parse(text: Seq<char>)
    requires
        parse_path(text) is Ok,
    ensures
        path_text(parse_path(text)->Ok_0) == text,
{
    if text.len() == 0 {
        assert(text =~= Seq::<char>::empty());
    } else {
        crate::text::law_join_undoes_split(text, '/');
    }
}

/// Different paths are written differently.
pub proof fn law_path_text_is_unique(a: Seq<Seq<char>>, b: Seq<Seq<char>>)
    requires
        valid_path(a),
        valid_path(b),
        path_text(a) == path_text(b),
    ensures
        a == b,
{
    law_parse_undoes_display(a);
    law_parse_undoes_display(b);
}

/// Absolute position of a component in the tree, such as `car1/physics`.
///
/// The world root is the empty path; scheduled components are always leaves
/// with a non-empty path. `Ord` is lexicographic over segments and provides
/// the deterministic sort key of inboxes.
#[derive(Debug, Eq, PartialOrd, Ord, Hash)]
pub struct ComponentPath(Vec<ComponentId>);

impl View for ComponentPath {
    type V = Seq<Seq<char>>;

    closed spec fn view(&self) -> Seq<Seq<char>> {
        names(self.0@)
    }
}

impl ComponentPath {
    /// The world root, the empty path.
    pub fn root() -> (path: Self)
        ensures
            path@ == Seq::<Seq<char>>::empty(),
    {
        let path = ComponentPath(Vec::new());
        proof {
            assert(path@ =~= Seq::<Seq<char>>::empty());
        }
        path
    }

    /// Parses a `/`-separated path. The empty string is the root.
    pub fn parse(path: &str) -> (parsed: Result<Self, CoreError>)
        ensures
            match parsed {
                Ok(found) => parse_path(path@) == Ok::<Seq<Seq<char>>, Seq<char>>(found@)
                    && valid_path(found@),
                Err(error) => parse_path(path@) matches Err(part)
                    && error matches CoreError::InvalidComponentId(text) && text@ == part,
            },
    {
        if path.is_empty() {
            return Ok(Self::root());
        }
        let parts = split_text(path, '/');
        let ghost all = crate::text::split(path@, '/');
        let mut segments: Vec<ComponentId> = Vec::new();
        let mut i: usize = 0;
        while i < parts.len()
            invariant
                path@.len() > 0,
                all == crate::text::split(path@, '/'),
                crate::text::texts(parts@) == all,
                0 <= i <= parts@.len(),
                names(segments@) == all.take(i as int),
                first_invalid(all.take(i as int)) is None,
            decreases parts@.len() - i,
        {
            proof {
                assert(all[i as int] == parts@[i as int]@);
                assert(all.take(i + 1).drop_last() =~= all.take(i as int));
                assert(all.take(i + 1) =~= all.take(i as int).push(all[i as int]));
            }
            match ComponentId::new(parts[i].as_str()) {
                Ok(id) => {
                    proof {
                        assert(names(segments@.push(id)) =~= names(segments@).push(id@));
                    }
                    segments.push(id);
                },
                Err(error) => {
                    proof {
                        lemma_first_invalid_prefix(all, i + 1);
                    }
                    return Err(error);
                },
            }
            i += 1;
        }
        proof {
            assert(all.take(i as int) =~= all);
            lemma_first_invalid(all);
        }
        Ok(ComponentPath(segments))
    }

    /// The segments, outermost first.
    pub fn segments(&self) -> (ids: &[ComponentId])
        ensures
            names(ids@) == self@,
    {
        self.0.as_slice()
    }

    /// How many segments the path has.
    pub fn len(&self) -> (count: usize)
        ensures
            count == self@.len(),
    {
        self.0.len()
    }

    /// The segment at `i`.
    pub fn segment(&self, i: usize) -> (id: &ComponentId)
        requires
            i < self@.len(),
        ensures
            id@ == self@[i as int],
    {
        &self.0[i]
    }

    /// Whether this is the world root.
    pub fn is_root(&self) -> (root: bool)
        ensures
            root == (self@.len() == 0),
    {
        self.0.len() == 0
    }

    /// A new path with `id` appended.
    pub fn join(&self, id: ComponentId) -> (path: ComponentPath)
        ensures
            path@ == self@.push(id@),
    {
        let mut path = self.clone();
        proof {
            assert(names(path.0@.push(id)) =~= names(path.0@).push(id@));
        }
        path.0.push(id);
        path
    }

    /// The path without its last segment; the root has no parent.
    pub fn parent(&self) -> (path: Option<ComponentPath>)
        ensures
            match path {
                Some(p) => self@.len() > 0 && p@ == self@.drop_last(),
                None => self@.len() == 0,
            },
    {
        if self.0.len() == 0 {
            None
        } else {
            let path = self.prefix(self.0.len() - 1);
            proof {
                assert(path@ =~= self@.drop_last());
            }
            Some(path)
        }
    }

    /// The first `len` segments as a path.
    pub fn prefix(&self, len: usize) -> (path: ComponentPath)
        requires
            len <= self@.len(),
        ensures
            path@ == self@.take(len as int),
    {
        let mut segments: Vec<ComponentId> = Vec::new();
        let mut i: usize = 0;
        while i < len
            invariant
                0 <= i <= len <= self.0@.len(),
                segments@ == self.0@.take(i as int),
            decreases len - i,
        {
            segments.push(self.0[i].clone());
            proof {
                assert(segments@ =~= self.0@.take(i + 1));
            }
            i += 1;
        }
        let path = ComponentPath(segments);
        proof {
            assert(path@ =~= self@.take(len as int));
        }
        path
    }

    /// Number of leading segments shared with `other`.
    pub fn common_prefix_len(&self, other: &ComponentPath) -> (shared: usize)
        ensures
            shared <= self@.len(),
            shared <= other@.len(),
            self@.take(shared as int) == other@.take(shared as int),
            shared < self@.len() && shared < other@.len() ==> self@[shared as int]
                != other@[shared as int],
    {
        let mut i: usize = 0;
        while i < self.0.len() && i < other.0.len() && self.0[i] == other.0[i]
            invariant
                i <= self.0@.len(),
                i <= other.0@.len(),
                self@.take(i as int) == other@.take(i as int),
            decreases self.0@.len() - i,
        {
            proof {
                assert(self@[i as int] == other@[i as int]);
                assert(self@.take(i + 1) =~= self@.take(i as int).push(self@[i as int]));
                assert(other@.take(i + 1) =~= other@.take(i as int).push(other@[i as int]));
            }
            i += 1;
        }
        i
    }

    /// The path as text, with `/` between its segments.
    pub fn to_string(&self) -> (text: String)
        ensures
            text@ == path_text(self@),
            valid_path(self@),
    {
        let mut text = String::new();
        let mut i: usize = 0;
        proof {
            assert(self@.take(0) =~= Seq::<Seq<char>>::empty());
        }
        while i < self.0.len()
            invariant
                0 <= i <= self.0@.len(),
                text@ == path_text(self@.take(i as int)),
                forall|j: int| 0 <= j < i ==> valid_id(#[trigger] self@[j]),
            decreases self.0@.len() - i,
        {
            proof {
                assert(self@.take(i + 1).drop_last() =~= self@.take(i as int));
                assert(self@.take(i + 1).last() == self.0@[i as int]@);
            }
            if i > 0 {
                text.push('/');
            }
            text.append(self.0[i].as_str());
            proof {
                if i == 0 {
                    assert(text@ =~= self@.take(1)[0]);
                }
            }
            i += 1;
        }
        proof {
            assert(self@.take(i as int) =~= self@);
        }
        text
    }
}

impl Default for ComponentPath {
    fn default() -> (path: Self)
        ensures
            path@ == Seq::<Seq<char>>::empty(),
    {
        Self::root()
    }
}

impl Clone for ComponentPath {
    fn clone(&self) -> (copy: Self)
        ensures
            copy@ == self@,
    {
        let mut segments: Vec<ComponentId> = Vec::new();
        let mut i: usize = 0;
        while i < self.0.len()
            invariant
                0 <= i <= self.0@.len(),
                segments@ == self.0@.take(i as int),
            decreases self.0@.len() - i,
        {
            segments.push(self.0[i].clone());
            proof {
                assert(segments@ =~= self.0@.take(i + 1));
            }
            i += 1;
        }
        proof {
            assert(segments@ =~= self.0@);
        }
        ComponentPath(segments)
    }
}

impl PartialEq for ComponentPath {
    fn eq(&self, other: &Self) -> (same: bool) {
        if self.0.len() != other.0.len() {
            return false;
        }
        let mut i: usize = 0;
        while i < self.0.len()
            invariant
                self@.len() == other@.len(),
                self@.len() == self.0@.len(),
                other@.len() == other.0@.len(),
                0 <= i <= self.0@.len(),
                forall|j: int| 0 <= j < i ==> self@[j] == other@[j],
            decreases self.0@.len() - i,
        {
            if self.0[i] != other.0[i] {
                proof {
                    assert(self@[i as int] != other@[i as int]);
                }
                return false;
            }
            proof {
                assert(self@[i as int] == other@[i as int]);
            }
            i += 1;
        }
        proof {
            assert(self@ =~= other@);
        }
        true
    }
}

impl vstd::std_specs::cmp::PartialEqSpecImpl for ComponentPath {
    open spec fn obeys_eq_spec() -> bool {
        true
    }

    open spec fn eq_spec(&self, other: &Self) -> bool {
        self@ == other@
    }
}

} // verus!
