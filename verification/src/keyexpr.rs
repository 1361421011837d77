//! Key expressions: the addresses messages are published on, and the
//! patterns components subscribe with.
use vstd::prelude::*;

use crate::error::CoreError;
use crate::text::{chars_of, same_text, split_text};

verus! {

/// Root chunk every simulation key sits under: `continuo/{world}/...`.
///
/// Nothing needs to concatenate this by hand: [`KeyExpr::new_rooted`] builds
/// keys under it and owns the separator, so no call site has to remember one.
pub const KEY_ROOT: &'static str = "continuo";

/// The characters that only a wildcard chunk may hold.
pub open spec fn is_wildcard(c: char) -> bool {
    c == '*' || c == '$' || c == '?' || c == '#'
}

/// Whether a chunk stands for exactly one chunk, whatever it is.
pub open spec fn is_any_one(chunk: Seq<char>) -> bool {
    chunk == seq!['*']
}

/// Whether a chunk stands for any number of chunks, zero among them.
pub open spec fn is_any_number(chunk: Seq<char>) -> bool {
    chunk == seq!['*', '*']
}

/// Whether a chunk holds a wildcard character.
pub open spec fn holds_wildcard(chunk: Seq<char>) -> bool {
    exists|i: int| 0 <= i < chunk.len() && is_wildcard(#[trigger] chunk[i])
}

/// Why a chunk is refused, if it is.
pub open spec fn chunk_error(chunk: Seq<char>) -> Option<Seq<char>> {
    if chunk.len() == 0 {
        Some("empty chunk (leading, trailing, or double '/')"@)
    } else if is_any_one(chunk) || is_any_number(chunk) {
        None
    } else if holds_wildcard(chunk) {
        Some("literal chunks may not contain wildcard characters"@)
    } else {
        None
    }
}

/// Why the first refused chunk is refused, if one is.
pub open spec fn first_chunk_error(chunks: Seq<Seq<char>>) -> Option<Seq<char>>
    decreases chunks.len(),
{
    if chunks.len() == 0 {
        None
    } else {
        match first_chunk_error(chunks.drop_last()) {
            Some(reason) => Some(reason),
            None => chunk_error(chunks.last()),
        }
    }
}

/// Why a text is no key expression, if it is none.
pub open spec fn key_error(expr: Seq<char>) -> Option<Seq<char>> {
    if expr.len() == 0 {
        Some("must be non-empty"@)
    } else {
        first_chunk_error(chunks_of(expr))
    }
}

/// The `/`-separated chunks of an expression.
pub open spec fn chunks_of(expr: Seq<char>) -> Seq<Seq<char>> {
    crate::text::split(expr, '/')
}

/// Whether a pattern's chunks match all of a key's chunks: a literal matches
/// itself, `*` exactly one chunk, `**` any number of chunks including zero.
pub open spec fn chunks_match(pattern: Seq<Seq<char>>, key: Seq<Seq<char>>) -> bool
    decreases pattern.len(),
{
    if pattern.len() == 0 {
        key.len() == 0
    } else if is_any_number(pattern[0]) {
        exists|skip: int|
            0 <= skip <= key.len() && chunks_match(pattern.drop_first(), #[trigger] key.skip(skip))
    } else {
        key.len() > 0 && (is_any_one(pattern[0]) || key[0] == pattern[0]) && chunks_match(
            pattern.drop_first(),
            key.drop_first(),
        )
    }
}

/// Whether a pattern matches a key.
pub open spec fn key_matches(pattern: Seq<char>, key: Seq<char>) -> bool {
    chunks_match(chunks_of(pattern), chunks_of(key))
}

/// A reason found among the first chunks is the reason for all of them.
proof fn lemma_first_chunk_error_prefix(chunks: Seq<Seq<char>>, count: int)
    requires
        0 <= count <= chunks.len(),
        first_chunk_error(chunks.take(count)) is Some,
    ensures
        first_chunk_error(chunks) == first_chunk_error(chunks.take(count)),
    decreases chunks.len() - count,
{
    if count == chunks.len() {
        assert(chunks.take(count) =~= chunks);
    } else {
        assert(chunks.take(count + 1).drop_last() =~= chunks.take(count));
        lemma_first_chunk_error_prefix(chunks, count + 1);
    }
}

/// Literal chunks match themselves and nothing else.
proof fn lemma_literals_match_themselves(pattern: Seq<Seq<char>>, key: Seq<Seq<char>>)
    requires
        forall|i: int|
            0 <= i < pattern.len() ==> !is_any_one(#[trigger] pattern[i]) && !is_any_number(
                pattern[i],
            ),
    ensures
        chunks_match(pattern, key) == (pattern == key),
    decreases pattern.len(),
{
    if pattern.len() == 0 {
        assert(pattern =~= Seq::<Seq<char>>::empty());
        if key.len() == 0 {
            assert(pattern =~= key);
        }
    } else {
        let rest = pattern.drop_first();
        assert(!is_any_one(pattern[0]) && !is_any_number(pattern[0]));
        assert forall|i: int| 0 <= i < rest.len() implies !is_any_one(#[trigger] rest[i])
            && !is_any_number(rest[i]) by {
            assert(!is_any_one(pattern[i + 1]));
        }
        if key.len() > 0 {
            lemma_literals_match_themselves(rest, key.drop_first());
            if chunks_match(pattern, key) {
                assert(pattern =~= seq![pattern[0]] + rest);
                assert(key =~= seq![key[0]] + key.drop_first());
            }
        }
    }
}

/// An expression without wildcards matches exactly itself.
pub proof fn law_a_literal_matches_only_itself(pattern: Seq<char>, key: Seq<char>)
    requires
        forall|i: int| 0 <= i < pattern.len() ==> !is_wildcard(#[trigger] pattern[i]),
    ensures
        key_matches(pattern, key) <==> pattern == key,
{
    let chunks = chunks_of(pattern);
    lemma_chunk_characters(pattern);
    assert forall|i: int| 0 <= i < chunks.len() implies !is_any_one(#[trigger] chunks[i])
        && !is_any_number(chunks[i]) by {
        if is_any_one(chunks[i]) || is_any_number(chunks[i]) {
            assert(chunks[i][0] == '*');
            assert(pattern.contains(chunks[i][0]));
            let j = choose|j: int| 0 <= j < pattern.len() && pattern[j] == '*';
            assert(is_wildcard(pattern[j]));
        }
    }
    lemma_literals_match_themselves(chunks, chunks_of(key));
    crate::text::law_join_undoes_split(pattern, '/');
    crate::text::law_join_undoes_split(key, '/');
}

/// Every character of a chunk is a character of the expression.
proof fn lemma_chunk_characters(expr: Seq<char>)
    ensures
        forall|i: int, j: int|
            0 <= i < chunks_of(expr).len() && 0 <= j < chunks_of(expr)[i].len() ==> expr.contains(
                #[trigger] chunks_of(expr)[i][j],
            ),
    decreases expr.len(),
{
    if expr.len() > 0 {
        let front = expr.drop_last();
        let before = chunks_of(front);
        let chunks = chunks_of(expr);
        lemma_chunk_characters(front);
        crate::text::lemma_split_nonempty(front, '/');
        assert forall|i: int, j: int|
            0 <= i < chunks.len() && 0 <= j < chunks[i].len() implies expr.contains(
            #[trigger] chunks[i][j],
        ) by {
            if i < before.len() && j < before[i].len() {
                assert(chunks[i][j] == before[i][j]);
                assert(front.contains(before[i][j]));
                let k = choose|k: int| 0 <= k < front.len() && front[k] == before[i][j];
                assert(expr[k] == before[i][j]);
            } else {
                assert(chunks[i][j] == expr.last());
                assert(expr[expr.len() - 1] == expr.last());
            }
        }
    }
}

/// The expression `**` matches every key.
pub proof fn law_any_number_matches_everything(key: Seq<char>)
    ensures
        key_matches(seq!['*', '*'], key),
{
    let pattern = seq!['*', '*'];
    assert(!pattern.contains('/')) by {
        if pattern.contains('/') {
            let i = choose|i: int| 0 <= i < pattern.len() && pattern[i] == '/';
        }
    }
    crate::text::lemma_split_single(pattern, '/');
    let chunks = chunks_of(key);
    let rest = chunks.skip(chunks.len() as int);
    assert(chunks_of(pattern) =~= seq![pattern]);
    assert(chunks_of(pattern).drop_first() =~= Seq::<Seq<char>>::empty());
    assert(chunks_match(chunks_of(pattern).drop_first(), rest));
}

/// Literal chunks followed by `**` match exactly the keys that start with
/// those chunks.
pub proof fn law_trailing_any_number_matches_a_prefix(
    literals: Seq<Seq<char>>,
    key: Seq<Seq<char>>,
)
    requires
        forall|i: int|
            0 <= i < literals.len() ==> !is_any_one(#[trigger] literals[i]) && !is_any_number(
                literals[i],
            ),
    ensures
        chunks_match(literals.push(seq!['*', '*']), key) <==> literals.len() <= key.len()
            && key.take(literals.len() as int) == literals,
    decreases literals.len(),
{
    let pattern = literals.push(seq!['*', '*']);
    if literals.len() == 0 {
        assert(pattern[0] == seq!['*', '*']);
        assert(pattern.drop_first() =~= Seq::<Seq<char>>::empty());
        assert(chunks_match(pattern.drop_first(), key.skip(key.len() as int)));
        assert(key.take(0) =~= literals);
    } else {
        let rest = literals.drop_first();
        assert(!is_any_one(literals[0]) && !is_any_number(literals[0]));
        assert forall|i: int| 0 <= i < rest.len() implies !is_any_one(#[trigger] rest[i])
            && !is_any_number(rest[i]) by {
            assert(!is_any_one(literals[i + 1]));
        }
        assert(pattern.drop_first() =~= rest.push(seq!['*', '*']));
        if key.len() > 0 {
            law_trailing_any_number_matches_a_prefix(rest, key.drop_first());
            if literals.len() <= key.len() {
                assert(key.take(literals.len() as int).drop_first() =~= key.drop_first().take(
                    rest.len() as int,
                ));
                assert(key.take(literals.len() as int)[0] == key[0]);
                if key[0] == literals[0] && key.drop_first().take(rest.len() as int) == rest {
                    assert(key.take(literals.len() as int) =~= seq![literals[0]] + rest);
                    assert(literals =~= seq![literals[0]] + rest);
                }
            }
        }
    }
}

/// What is before a place and what is from it on, taken apart once more.
proof fn lemma_cut_twice(key: Seq<Seq<char>>, skip: int, more: int)
    requires
        0 <= skip,
        0 <= more,
        skip + more <= key.len(),
    ensures
        key.skip(skip).take(more) == key.take(skip + more).skip(skip),
        key.skip(skip).skip(more) == key.skip(skip + more),
{
    assert(key.skip(skip).take(more) =~= key.take(skip + more).skip(skip));
    assert(key.skip(skip).skip(more) =~= key.skip(skip + more));
}

/// Whether a key comes apart at a place into what two patterns match.
pub open spec fn parts_at(
    first: Seq<Seq<char>>,
    second: Seq<Seq<char>>,
    key: Seq<Seq<char>>,
    at: int,
) -> bool {
    &&& 0 <= at <= key.len()
    &&& chunks_match(first, key.take(at))
    &&& chunks_match(second, key.skip(at))
}

/// A pattern written behind another matches exactly the keys that come apart
/// into one that the first matches and one that the second matches.
pub proof fn law_patterns_match_one_after_the_other(
    first: Seq<Seq<char>>,
    second: Seq<Seq<char>>,
    key: Seq<Seq<char>>,
)
    ensures
        chunks_match(first + second, key) <==> exists|at: int| #[trigger]
            parts_at(first, second, key, at),
    decreases first.len(),
{
    let whole = first + second;
    if first.len() == 0 {
        assert(whole =~= second);
        assert(key.take(0) =~= Seq::<Seq<char>>::empty());
        assert(key.skip(0) =~= key);
        if chunks_match(whole, key) {
            assert(parts_at(first, second, key, 0));
        }
    } else {
        let rest = first.drop_first();
        assert(whole.drop_first() =~= rest + second);
        assert(whole[0] == first[0]);
        if is_any_number(first[0]) {
            if chunks_match(whole, key) {
                let skip = choose|skip: int|
                    0 <= skip <= key.len() && chunks_match(
                        whole.drop_first(),
                        #[trigger] key.skip(skip),
                    );
                law_patterns_match_one_after_the_other(rest, second, key.skip(skip));
                let more = choose|more: int| #[trigger]
                    parts_at(rest, second, key.skip(skip), more);
                assert(parts_at(rest, second, key.skip(skip), more));
                lemma_cut_twice(key, skip, more);
                assert(chunks_match(rest, key.take(skip + more).skip(skip)));
                assert(parts_at(first, second, key, skip + more));
            }
            if exists|at: int| #[trigger] parts_at(first, second, key, at) {
                let at = choose|at: int| #[trigger] parts_at(first, second, key, at);
                assert(parts_at(first, second, key, at));
                let front = key.take(at);
                let skip = choose|skip: int|
                    0 <= skip <= front.len() && chunks_match(rest, #[trigger] front.skip(skip));
                lemma_cut_twice(key, skip, at - skip);
                law_patterns_match_one_after_the_other(rest, second, key.skip(skip));
                assert(parts_at(rest, second, key.skip(skip), at - skip));
                assert(chunks_match(whole.drop_first(), key.skip(skip)));
            }
        } else if key.len() > 0 {
            let tail = key.drop_first();
            assert(tail =~= key.skip(1));
            law_patterns_match_one_after_the_other(rest, second, tail);
            if chunks_match(whole, key) {
                let more = choose|more: int| #[trigger] parts_at(rest, second, tail, more);
                assert(parts_at(rest, second, tail, more));
                lemma_cut_twice(key, 1, more);
                assert(key.take(1 + more).drop_first() =~= key.take(1 + more).skip(1));
                assert(key.take(1 + more)[0] == key[0]);
                assert(parts_at(first, second, key, 1 + more));
            }
            if exists|at: int| #[trigger] parts_at(first, second, key, at) {
                let at = choose|at: int| #[trigger] parts_at(first, second, key, at);
                assert(parts_at(first, second, key, at));
                assert(at > 0);
                lemma_cut_twice(key, 1, at - 1);
                assert(key.take(at).drop_first() =~= key.take(at).skip(1));
                assert(key.take(at)[0] == key[0]);
                assert(parts_at(rest, second, tail, at - 1));
            }
        } else {
            if exists|at: int| #[trigger] parts_at(first, second, key, at) {
                let at = choose|at: int| #[trigger] parts_at(first, second, key, at);
                assert(parts_at(first, second, key, at));
                assert(key.take(at).len() == 0);
            }
        }
    }
}

/// A pattern of one chunk: `**` matches every key, `*` every key of one chunk,
/// and any other chunk the key that is that chunk alone.
pub proof fn law_one_chunk_matches(chunk: Seq<char>, key: Seq<Seq<char>>)
    ensures
        chunks_match(seq![chunk], key) <==> (chunk == seq!['*', '*'] || (key.len() == 1 && (chunk
            == seq!['*'] || key[0] == chunk))),
{
    reveal_with_fuel(chunks_match, 2);
    let pattern = seq![chunk];
    assert(pattern[0] == chunk);
    assert(pattern.drop_first() =~= Seq::<Seq<char>>::empty());
    if chunk == seq!['*', '*'] {
        assert(chunks_match(pattern.drop_first(), key.skip(key.len() as int)));
    } else {
        if key.len() == 1 {
            assert(key.drop_first().len() == 0);
        }
    }
}

/// A pattern of literals and single wildcards matches exactly the keys of as
/// many chunks that have the pattern's chunk at every place, the last one
/// among them, where the pattern has no wildcard.
pub proof fn law_a_single_wildcard_stands_for_one_chunk(
    pattern: Seq<Seq<char>>,
    key: Seq<Seq<char>>,
)
    requires
        forall|i: int| 0 <= i < pattern.len() ==> #[trigger] pattern[i] != seq!['*', '*'],
    ensures
        chunks_match(pattern, key) <==> pattern.len() == key.len() && forall|i: int|
            0 <= i < pattern.len() ==> pattern[i] == seq!['*'] || key[i] == #[trigger] pattern[i],
    decreases pattern.len(),
{
    if pattern.len() > 0 {
        let rest = pattern.drop_first();
        assert(pattern[0] != seq!['*', '*']);
        assert forall|i: int| 0 <= i < rest.len() implies #[trigger] rest[i] != seq!['*', '*'] by {
            assert(pattern[i + 1] != seq!['*', '*']);
        }
        if key.len() > 0 {
            let tail = key.drop_first();
            law_a_single_wildcard_stands_for_one_chunk(rest, tail);
            let fits = pattern.len() == key.len() && forall|i: int|
                0 <= i < pattern.len() ==> pattern[i] == seq!['*'] || key[i]
                    == #[trigger] pattern[i];
            if chunks_match(pattern, key) {
                assert forall|i: int| 0 <= i < pattern.len() implies pattern[i] == seq!['*']
                    || key[i] == #[trigger] pattern[i] by {
                    if i > 0 {
                        assert(rest[i - 1] == pattern[i]);
                        assert(tail[i - 1] == key[i]);
                    }
                }
            }
            if fits {
                assert(pattern[0] == seq!['*'] || key[0] == pattern[0]);
                assert forall|i: int| 0 <= i < rest.len() implies rest[i] == seq!['*'] || tail[i]
                    == #[trigger] rest[i] by {
                    assert(pattern[i + 1] == rest[i]);
                    assert(key[i + 1] == tail[i]);
                }
            }
        }
    }
}

/// An expression and a key are matched chunk by chunk, as they are written
/// with `/` between the chunks.
pub proof fn law_expressions_are_matched_by_their_chunks(
    pattern: Seq<Seq<char>>,
    key: Seq<Seq<char>>,
)
    requires
        pattern.len() > 0,
        key.len() > 0,
        forall|i: int| 0 <= i < pattern.len() ==> !(#[trigger] pattern[i]).contains('/'),
        forall|i: int| 0 <= i < key.len() ==> !(#[trigger] key[i]).contains('/'),
    ensures
        key_matches(crate::text::join(pattern, '/'), crate::text::join(key, '/')) == chunks_match(
            pattern,
            key,
        ),
{
    crate::text::law_split_undoes_join(pattern, '/');
    crate::text::law_split_undoes_join(key, '/');
}

/// A text is a key expression exactly where it is not empty, has no empty
/// chunk, and every chunk of it is `*`, is `**`, or holds none of the
/// characters `*`, `$`, `?` and `#`.
pub proof fn law_which_texts_are_key_expressions(chunks: Seq<Seq<char>>)
    requires
        chunks.len() > 0,
        forall|i: int| 0 <= i < chunks.len() ==> !(#[trigger] chunks[i]).contains('/'),
    ensures
        key_error(crate::text::join(chunks, '/')) is None <==> forall|i: int|
            0 <= i < chunks.len() ==> {
                let chunk = #[trigger] chunks[i];
                &&& chunk.len() > 0
                &&& chunk == seq!['*'] || chunk == seq!['*', '*'] || !(chunk.contains('*')
                    || chunk.contains('$') || chunk.contains('?') || chunk.contains('#'))
            },
{
    crate::text::law_split_undoes_join(chunks, '/');
    let expr = crate::text::join(chunks, '/');
    lemma_no_chunk_refused(chunks);
    assert forall|i: int| 0 <= i < chunks.len() implies (chunk_error(#[trigger] chunks[i]) is None
        <==> {
        let chunk = chunks[i];
        &&& chunk.len() > 0
        &&& chunk == seq!['*'] || chunk == seq!['*', '*'] || !(chunk.contains('*')
            || chunk.contains('$') || chunk.contains('?') || chunk.contains('#'))
    }) by {
        let chunk = chunks[i];
        if holds_wildcard(chunk) {
            let j = choose|j: int| 0 <= j < chunk.len() && is_wildcard(#[trigger] chunk[j]);
            assert(chunk.contains(chunk[j]));
        } else {
            assert forall|c: char| is_wildcard(c) implies !chunk.contains(c) by {
                if chunk.contains(c) {
                    let j = choose|j: int| 0 <= j < chunk.len() && chunk[j] == c;
                    assert(is_wildcard(chunk[j]));
                }
            }
            assert(is_wildcard('*') && is_wildcard('$') && is_wildcard('?') && is_wildcard('#'));
        }
    }
    if expr.len() == 0 {
        assert(expr =~= Seq::<char>::empty());
        assert(crate::text::split(expr, '/')[0].len() == 0);
        assert(chunks[0].len() == 0);
    }
    if first_chunk_error(chunks) is None {
        assert forall|i: int| 0 <= i < chunks.len() implies chunk_error(
            #[trigger] chunks[i],
        ) is None by {}
    }
}

/// No chunk is refused exactly where none of them is.
proof fn lemma_no_chunk_refused(chunks: Seq<Seq<char>>)
    ensures
        first_chunk_error(chunks) is None <==> forall|i: int|
            0 <= i < chunks.len() ==> chunk_error(#[trigger] chunks[i]) is None,
    decreases chunks.len(),
{
    if chunks.len() > 0 {
        let front = chunks.drop_last();
        lemma_no_chunk_refused(front);
        if first_chunk_error(chunks) is None {
            assert forall|i: int| 0 <= i < chunks.len() implies chunk_error(
                #[trigger] chunks[i],
            ) is None by {
                if i < front.len() {
                    assert(front[i] == chunks[i]);
                }
            }
        }
        if forall|i: int| 0 <= i < chunks.len() ==> chunk_error(#[trigger] chunks[i]) is None {
            assert forall|i: int| 0 <= i < front.len() implies chunk_error(
                #[trigger] front[i],
            ) is None by {
                assert(chunk_error(chunks[i]) is None);
            }
            assert(chunk_error(chunks[chunks.len() - 1]) is None);
        }
    }
}

/// A path under the simulation root is written behind `continuo/`.
pub proof fn law_a_rooted_path_is_behind_the_root(path: Seq<char>)
    ensures
        rooted(path) == seq!['c', 'o', 'n', 't', 'i', 'n', 'u', 'o', '/'] + path,
{
    reveal_strlit("continuo");
    reveal_strlit("/");
    assert(rooted(path) =~= seq!['c', 'o', 'n', 't', 'i', 'n', 'u', 'o', '/'] + path);
}

/// A key expression: `/`-separated chunks, where a chunk may be a literal,
/// `*` (exactly one chunk), or `**` (any number of chunks, including zero).
#[derive(Debug, Eq, PartialOrd, Ord, Hash)]
pub struct KeyExpr(String);

impl View for KeyExpr {
    type V = Seq<char>;

    closed spec fn view(&self) -> Seq<char> {
        self.0@
    }
}

impl KeyExpr {
    #[verifier::type_invariant]
    spec fn is_valid(self) -> bool {
        key_error(self.0@) is None
    }

    /// A validated key expression from a **complete** key, taken exactly as
    /// given. Nothing is added; for building a key under the simulation root
    /// use [`Self::new_rooted`].
    pub fn new(expr: &str) -> (made: Result<Self, CoreError>)
        ensures
            match made {
                Ok(key) => key_error(expr@) is None && key@ == expr@,
                Err(error) => key_error(expr@) matches Some(reason)
                    && error matches CoreError::InvalidKeyExpr { expr: given, reason: said }
                    && given@ == expr@ && said@ == reason,
            },
    {
        if expr.is_empty() {
            return Err(key_refusal(expr, "must be non-empty"));
        }
        let chunks = split_text(expr, '/');
        let ghost all = chunks_of(expr@);
        let mut i: usize = 0;
        proof {
            assert(all.take(0) =~= Seq::<Seq<char>>::empty());
        }
        while i < chunks.len()
            invariant
                expr@.len() > 0,
                all == chunks_of(expr@),
                crate::text::texts(chunks@) == all,
                0 <= i <= chunks@.len(),
                first_chunk_error(all.take(i as int)) is None,
            decreases chunks@.len() - i,
        {
            proof {
                assert(all[i as int] == chunks@[i as int]@);
                assert(all.take(i + 1).drop_last() =~= all.take(i as int));
                assert(all.take(i + 1).last() == all[i as int]);
            }
            let chunk = chunks[i].as_str();
            if chunk.is_empty() {
                proof {
                    lemma_first_chunk_error_prefix(all, i + 1);
                }
                return Err(key_refusal(expr, "empty chunk (leading, trailing, or double '/')"));
            }
            if !chunk_is_any_one(chunk) && !chunk_is_any_number(chunk) && has_wildcard(chunk) {
                proof {
                    lemma_first_chunk_error_prefix(all, i + 1);
                }
                return Err(
                    key_refusal(expr, "literal chunks may not contain wildcard characters"),
                );
            }
            i += 1;
        }
        proof {
            assert(all.take(i as int) =~= all);
        }
        Ok(KeyExpr(expr.to_owned()))
    }

    /// A key under the simulation root: `continuo/{path}`.
    ///
    /// The separator lives here so that no call site has to remember it, and
    /// a path that brings one of its own is refused as a doubled chunk.
    pub fn new_rooted(path: &str) -> (made: Result<Self, CoreError>)
        ensures
            match made {
                Ok(key) => key_error(rooted(path@)) is None && key@ == rooted(path@),
                Err(error) => key_error(rooted(path@)) matches Some(reason)
                    && error matches CoreError::InvalidKeyExpr { expr: given, reason: said }
                    && given@ == rooted(path@) && said@ == reason,
            },
    {
        let expr = KEY_ROOT.to_owned().concat("/").concat(path);
        KeyExpr::new(expr.as_str())
    }

    /// The expression as text.
    pub fn as_str(&self) -> (text: &str)
        ensures
            text@ == self@,
            key_error(text@) is None,
    {
        proof {
            use_type_invariant(self);
        }
        self.0.as_str()
    }

    /// The expression as an owned text.
    pub fn to_string(&self) -> (text: String)
        ensures
            text@ == self@,
            key_error(text@) is None,
    {
        proof {
            use_type_invariant(self);
        }
        self.0.clone()
    }

    /// Whether this (possibly wildcarded) expression matches a concrete key.
    ///
    /// `key` is expected to be wildcard-free, which is true of every
    /// published key; wildcards live only in subscriptions.
    pub fn matches(&self, key: &KeyExpr) -> (matched: bool)
        ensures
            matched == key_matches(self@, key@),
    {
        let pattern = split_text(self.0.as_str(), '/');
        let chunks = split_text(key.0.as_str(), '/');
        proof {
            assert(chunks_of(self@).skip(0) =~= chunks_of(self@));
            assert(chunks_of(key@).skip(0) =~= chunks_of(key@));
        }
        matches_chunks(&pattern, 0, &chunks, 0)
    }
}

/// A path put under the simulation root.
pub open spec fn rooted(path: Seq<char>) -> Seq<char> {
    KEY_ROOT@ + "/"@ + path
}

/// The error for text that is no key expression.
fn key_refusal(expr: &str, reason: &str) -> (error: CoreError)
    ensures
        error matches CoreError::InvalidKeyExpr { expr: given, reason: said } && given@ == expr@
            && said@ == reason@,
{
    CoreError::InvalidKeyExpr { expr: expr.to_owned(), reason: reason.to_owned() }
}

/// Whether a chunk is `*`.
fn chunk_is_any_one(chunk: &str) -> (yes: bool)
    ensures
        yes == is_any_one(chunk@),
{
    proof {
        reveal_strlit("*");
        assert("*"@ =~= seq!['*']);
    }
    same_text(chunk, "*")
}

/// Whether a chunk is `**`.
fn chunk_is_any_number(chunk: &str) -> (yes: bool)
    ensures
        yes == is_any_number(chunk@),
{
    proof {
        reveal_strlit("**");
        assert("**"@ =~= seq!['*', '*']);
    }
    same_text(chunk, "**")
}

/// Whether a chunk holds a wildcard character.
fn has_wildcard(chunk: &str) -> (yes: bool)
    ensures
        yes == holds_wildcard(chunk@),
{
    let chars = chars_of(chunk);
    let mut i: usize = 0;
    while i < chars.len()
        invariant
            chars@ == chunk@,
            0 <= i <= chars@.len(),
            forall|j: int| 0 <= j < i ==> !is_wildcard(#[trigger] chars@[j]),
        decreases chars@.len() - i,
    {
        let c = chars[i];
        if c == '*' || c == '$' || c == '?' || c == '#' {
            proof {
                assert(is_wildcard(chunk@[i as int]));
            }
            return true;
        }
        i += 1;
    }
    false
}

/// Whether `pattern[from..]` matches all of `key[at..]`.
fn matches_chunks(pattern: &Vec<String>, from: usize, key: &Vec<String>, at: usize) -> (matched:
    bool)
    requires
        from <= pattern@.len(),
        at <= key@.len(),
    ensures
        matched == chunks_match(
            crate::text::texts(pattern@).skip(from as int),
            crate::text::texts(key@).skip(at as int),
        ),
    decreases pattern@.len() - from,
{
    let ghost rest = crate::text::texts(pattern@).skip(from as int);
    let ghost left = crate::text::texts(key@).skip(at as int);
    if from == pattern.len() {
        return at == key.len();
    }
    let chunk = pattern[from].as_str();
    proof {
        assert(rest[0] == chunk@);
        assert(rest.drop_first() =~= crate::text::texts(pattern@).skip(from + 1));
    }
    if chunk_is_any_number(chunk) {
        let after: usize = from + 1;
        let mut next: usize = at;
        while next <= key.len()
            invariant
                after == from + 1,
                from < pattern@.len(),
                rest == crate::text::texts(pattern@).skip(from as int),
                at <= next <= key@.len() + 1,
                left == crate::text::texts(key@).skip(at as int),
                rest.drop_first() == crate::text::texts(pattern@).skip(from + 1),
                rest.len() > 0,
                is_any_number(rest[0]),
                forall|skip: int|
                    0 <= skip < next - at ==> !chunks_match(
                        rest.drop_first(),
                        #[trigger] left.skip(skip),
                    ),
            decreases key@.len() + 1 - next,
        {
            proof {
                assert(left.skip(next - at) =~= crate::text::texts(key@).skip(next as int));
            }
            if matches_chunks(pattern, after, key, next) {
                proof {
                    assert(chunks_match(rest.drop_first(), left.skip(next - at)));
                }
                return true;
            }
            if next == key.len() {
                return false;
            }
            next += 1;
        }
        return false;
    }
    if at == key.len() {
        return false;
    }
    proof {
        assert(left[0] == key@[at as int]@);
        assert(left.drop_first() =~= crate::text::texts(key@).skip(at + 1));
    }
    if chunk_is_any_one(chunk) || same_text(chunk, key[at].as_str()) {
        matches_chunks(pattern, from + 1, key, at + 1)
    } else {
        false
    }
}

impl Clone for KeyExpr {
    fn clone(&self) -> (copy: Self)
        ensures
            copy == *self,
    {
        proof {
            use_type_invariant(self);
        }
        KeyExpr(self.0.clone())
    }
}

impl PartialEq for KeyExpr {
    fn eq(&self, other: &Self) -> (same: bool) {
        self.0 == other.0
    }
}

impl vstd::std_specs::cmp::PartialEqSpecImpl for KeyExpr {
    open spec fn obeys_eq_spec() -> bool {
        true
    }

    open spec fn eq_spec(&self, other: &Self) -> bool {
        self@ == other@
    }
}

/// Key expressions as texts.
pub open spec fn key_texts(keys: Seq<KeyExpr>) -> Seq<Seq<char>> {
    Seq::new(keys.len(), |i: int| keys[i]@)
}

} // verus!
