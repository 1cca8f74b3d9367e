use vstd::prelude::*;
use vstd::string::*;

verus! {

/// Characters that models wrap around a JSON answer: backticks, quotes, newlines, spaces.
pub open spec fn is_fence_char(c: char) -> bool {
    c == '`' || c == '"' || c == '\n' || c == ' '
}

/// Unicode `White_Space`, the set that `str::trim_start` removes.
pub open spec fn is_unicode_space(c: char) -> bool {
    let u = c as u32;
    (0x9 <= u && u <= 0xd) || u == 0x20 || u == 0x85 || u == 0xa0 || u == 0x1680
        || (0x2000 <= u && u <= 0x200a) || u == 0x2028 || u == 0x2029 || u == 0x202f
        || u == 0x205f || u == 0x3000
}

/// `is_fence_char` as a predicate value.
pub open spec fn fence_pred() -> spec_fn(char) -> bool {
    |c: char| is_fence_char(c)
}

/// `is_unicode_space` as a predicate value.
pub open spec fn space_pred() -> spec_fn(char) -> bool {
    |c: char| is_unicode_space(c)
}

/// `s` without its longest prefix of characters satisfying `p`.
pub open spec fn strip_front(s: Seq<char>, p: spec_fn(char) -> bool) -> Seq<char>
    decreases s.len(),
{
    if s.len() > 0 && p(s[0]) {
        strip_front(s.drop_first(), p)
    } else {
        s
    }
}

/// `s` without its longest suffix of characters satisfying `p`.
pub open spec fn strip_back(s: Seq<char>, p: spec_fn(char) -> bool) -> Seq<char>
    decreases s.len(),
{
    if s.len() > 0 && p(s.last()) {
        strip_back(s.drop_last(), p)
    } else {
        s
    }
}

/// The language tag that fenced JSON answers start with.
pub open spec fn json_word() -> Seq<char> {
    seq!['j', 's', 'o', 'n']
}

/// `s` without a leading `json` language tag, if it has one.
pub open spec fn drop_json_tag(s: Seq<char>) -> Seq<char> {
    if s.len() >= 4 && s.subrange(0, 4) == json_word() {
        s.subrange(4, s.len() as int)
    } else {
        s
    }
}

/// `s` without any leading repetitions of the two characters backslash and `n`.
pub open spec fn drop_escaped_newlines(s: Seq<char>) -> Seq<char>
    decreases s.len(),
{
    if s.len() >= 2 && s[0] == '\\' && s[1] == 'n' {
        drop_escaped_newlines(s.subrange(2, s.len() as int))
    } else {
        s
    }
}

/// The raw model answer with fences, a `json` tag and leading whitespace removed.
pub open spec fn cleaned_json(raw: Seq<char>) -> Seq<char> {
    let trimmed = strip_front(strip_back(raw, fence_pred()), fence_pred());
    strip_front(drop_escaped_newlines(drop_json_tag(trimmed)), space_pred())
}

fn is_fence(c: char) -> (r: bool)
    ensures
        r == is_fence_char(c),
{
    c == '`' || c == '"' || c == '\n' || c == ' '
}

fn is_space(c: char) -> (r: bool)
    ensures
        r == is_unicode_space(c),
{
    let u = c as u32;
    (0x9 <= u && u <= 0xd) || u == 0x20 || u == 0x85 || u == 0xa0 || u == 0x1680
        || (0x2000 <= u && u <= 0x200a) || u == 0x2028 || u == 0x2029 || u == 0x202f
        || u == 0x205f || u == 0x3000
}

/// First index in `lo..hi` from which `s` no longer starts with fence characters.
fn skip_fences(s: &str, lo: usize, hi: usize) -> (i: usize)
    requires
        lo <= hi <= s@.len(),
    ensures
        lo <= i <= hi,
        strip_front(s@.subrange(lo as int, hi as int), fence_pred()) == s@.subrange(
            i as int,
            hi as int,
        ),
{
    let mut i = lo;
    while i < hi && is_fence(s.get_char(i))
        invariant
            lo <= i <= hi <= s@.len(),
            strip_front(s@.subrange(lo as int, hi as int), fence_pred()) == strip_front(
                s@.subrange(i as int, hi as int),
                fence_pred(),
            ),
        decreases hi - i,
    {
        assert(s@.subrange(i as int, hi as int).drop_first() == s@.subrange(i + 1, hi as int));
        i = i + 1;
    }
    i
}

/// First index in `lo..hi` from which `s` no longer starts with whitespace.
fn skip_spaces(s: &str, lo: usize, hi: usize) -> (i: usize)
    requires
        lo <= hi <= s@.len(),
    ensures
        lo <= i <= hi,
        strip_front(s@.subrange(lo as int, hi as int), space_pred()) == s@.subrange(
            i as int,
            hi as int,
        ),
{
    let mut i = lo;
    while i < hi && is_space(s.get_char(i))
        invariant
            lo <= i <= hi <= s@.len(),
            strip_front(s@.subrange(lo as int, hi as int), space_pred()) == strip_front(
                s@.subrange(i as int, hi as int),
                space_pred(),
            ),
        decreases hi - i,
    {
        assert(s@.subrange(i as int, hi as int).drop_first() == s@.subrange(i + 1, hi as int));
        i = i + 1;
    }
    i
}

/// End of `s[lo..hi]` once trailing fence characters are cut off.
fn cut_fences(s: &str, lo: usize, hi: usize) -> (j: usize)
    requires
        lo <= hi <= s@.len(),
    ensures
        lo <= j <= hi,
        strip_back(s@.subrange(lo as int, hi as int), fence_pred()) == s@.subrange(
            lo as int,
            j as int,
        ),
{
    let mut j = hi;
    while j > lo && is_fence(s.get_char(j - 1))
        invariant
            lo <= j <= hi <= s@.len(),
            strip_back(s@.subrange(lo as int, hi as int), fence_pred()) == strip_back(
                s@.subrange(lo as int, j as int),
                fence_pred(),
            ),
        decreases j,
    {
        assert(s@.subrange(lo as int, j as int).drop_last() == s@.subrange(lo as int, j - 1));
        j = j - 1;
    }
    j
}

/// End of `s[lo..hi]` once trailing whitespace is cut off.
fn cut_spaces(s: &str, lo: usize, hi: usize) -> (j: usize)
    requires
        lo <= hi <= s@.len(),
    ensures
        lo <= j <= hi,
        strip_back(s@.subrange(lo as int, hi as int), space_pred()) == s@.subrange(
            lo as int,
            j as int,
        ),
{
    let mut j = hi;
    while j > lo && is_space(s.get_char(j - 1))
        invariant
            lo <= j <= hi <= s@.len(),
            strip_back(s@.subrange(lo as int, hi as int), space_pred()) == strip_back(
                s@.subrange(lo as int, j as int),
                space_pred(),
            ),
        decreases j,
    {
        assert(s@.subrange(lo as int, j as int).drop_last() == s@.subrange(lo as int, j - 1));
        j = j - 1;
    }
    j
}

/// `s` without leading and trailing whitespace, as `str::trim` gives it.
pub open spec fn trim_spaces(s: Seq<char>) -> Seq<char> {
    strip_front(strip_back(s, space_pred()), space_pred())
}

/// The pieces of `s` between commas, as `str::split(',')` gives them: one more piece than
/// there are commas, empty ones included.
pub open spec fn split_commas(s: Seq<char>) -> Seq<Seq<char>>
    decreases s.len(),
{
    if s.len() == 0 {
        seq![Seq::<char>::empty()]
    } else {
        let front = split_commas(s.drop_last());
        if s.last() == ',' {
            front.push(Seq::<char>::empty())
        } else {
            front.update(front.len() - 1, front.last().push(s.last()))
        }
    }
}

/// Each piece with whitespace trimmed, in order, leaving out those that end up empty.
pub open spec fn nonempty_trimmed(pieces: Seq<Seq<char>>) -> Seq<Seq<char>>
    decreases pieces.len(),
{
    if pieces.len() == 0 {
        Seq::empty()
    } else {
        let front = nonempty_trimmed(pieces.drop_last());
        let t = trim_spaces(pieces.last());
        if t.len() > 0 {
            front.push(t)
        } else {
            front
        }
    }
}

/// The tags in a comma-separated model answer.
pub open spec fn candidate_list(response: Seq<char>) -> Seq<Seq<char>> {
    nonempty_trimmed(split_commas(trim_spaces(response)))
}

proof fn lemma_split_commas_nonempty(s: Seq<char>)
    ensures
        split_commas(s).len() >= 1,
    decreases s.len(),
{
    if s.len() > 0 {
        lemma_split_commas_nonempty(s.drop_last());
    }
}

/// `s[lo..hi]` with whitespace trimmed, as a new string.
fn trimmed_piece(s: &str, lo: usize, hi: usize) -> (r: String)
    requires
        lo <= hi <= s@.len(),
    ensures
        r@ == trim_spaces(s@.subrange(lo as int, hi as int)),
{
    let j = cut_spaces(s, lo, hi);
    let i = skip_spaces(s, lo, j);
    s.substring_char(i, j).to_string()
}

/// Splits a comma-separated model answer into tags: the answer and every piece are trimmed
/// of whitespace, and empty pieces are dropped. Order is kept.
pub fn candidate_tags_from_response(response: &str) -> (r: Vec<String>)
    ensures
        r@.map_values(|x: String| x@) == candidate_list(response@),
{
    let n = response.unicode_len();
    proof {
        assert(response@.subrange(0, n as int) == response@);
    }
    let hi = cut_spaces(response, 0, n);
    let lo = skip_spaces(response, 0, hi);
    let ghost t = response@.subrange(lo as int, hi as int);
    assert(trim_spaces(response@) == t);
    let mut r: Vec<String> = Vec::new();
    let ghost mut done: Seq<Seq<char>> = Seq::empty();
    let mut start = lo;
    let mut i = lo;
    assert(response@.subrange(lo as int, lo as int) == Seq::<char>::empty());
    while i < hi
        invariant
            lo <= start <= i <= hi <= response@.len(),
            t == response@.subrange(lo as int, hi as int),
            split_commas(response@.subrange(lo as int, i as int)) == done.push(
                response@.subrange(start as int, i as int),
            ),
            r@.map_values(|x: String| x@) == nonempty_trimmed(done),
        decreases hi - i,
    {
        let ghost prefix = response@.subrange(lo as int, (i + 1) as int);
        assert(prefix.drop_last() == response@.subrange(lo as int, i as int));
        assert(prefix.last() == response@[i as int]);
        let c = response.get_char(i);
        if c == ',' {
            let piece = trimmed_piece(response, start, i);
            let ghost raw = response@.subrange(start as int, i as int);
            let ghost old_done = done;
            proof {
                done = done.push(raw);
                assert(done.drop_last() == old_done);
            }
            if piece.unicode_len() > 0 {
                r.push(piece);
            }
            start = i + 1;
            i = i + 1;
            assert(response@.subrange(start as int, i as int) == Seq::<char>::empty());
        } else {
            let ghost raw = response@.subrange(start as int, i as int);
            assert(raw.push(c) =~= response@.subrange(start as int, (i + 1) as int));
            assert(done.push(raw).update(done.len() as int, raw.push(c)) =~= done.push(
                response@.subrange(start as int, (i + 1) as int),
            ));
            i = i + 1;
        }
    }
    let ghost old_done = done;
    let piece = trimmed_piece(response, start, hi);
    proof {
        done = done.push(response@.subrange(start as int, hi as int));
        assert(done.drop_last() == old_done);
    }
    if piece.unicode_len() > 0 {
        r.push(piece);
    }
    r
}

/// Tags grouped by category, each list ordered from most to least salient.
pub struct StructuredTags {
    pub subject: Vec<String>,
    pub environment: Vec<String>,
    pub quality: Vec<String>,
}

/// Pushes a copy of every element of `src` onto `dst`, keeping their order.
fn extend_cloned(dst: &mut Vec<String>, src: &Vec<String>)
    ensures
        final(dst)@ == old(dst)@ + src@,
{
    let ghost start = dst@;
    let mut i: usize = 0;
    while i < src.len()
        invariant
            i <= src@.len(),
            dst@ == start + src@.subrange(0, i as int),
        decreases src@.len() - i,
    {
        dst.push(src[i].clone());
        i = i + 1;
        assert(src@.subrange(0, i as int) == src@.subrange(0, i - 1) + seq![src@[i - 1]]);
    }
    assert(src@.subrange(0, i as int) == src@);
}

impl StructuredTags {
    /// The three lists joined in category order.
    pub open spec fn flat(&self) -> Seq<String> {
        self.subject@ + self.environment@ + self.quality@
    }

    /// All tags in one list: subject, then environment, then quality, each in its own order.
    /// Duplicates are kept.
    pub fn to_flat_vec(&self) -> (r: Vec<String>)
        ensures
            r@ == self.flat(),
    {
        let mut r: Vec<String> = Vec::new();
        extend_cloned(&mut r, &self.subject);
        extend_cloned(&mut r, &self.environment);
        extend_cloned(&mut r, &self.quality);
        assert(r@ == self.flat());
        r
    }

    /// Removes what models tend to wrap around a JSON answer: backticks, quotes, newlines and
    /// spaces at both ends, then a leading `json` tag, then any leading escaped newlines
    /// (a backslash followed by `n`), then leading whitespace.
    pub fn clean_json_output(raw: String) -> (r: String)
        ensures
            r@ == cleaned_json(raw@),
    {
        let s = raw.as_str();
        let n = s.unicode_len();
        proof {
            assert(s@.subrange(0, n as int) == s@);
        }
        let end = cut_fences(s, 0, n);
        let mut start = skip_fences(s, 0, end);
        let ghost trimmed = s@.subrange(start as int, end as int);
        if end - start >= 4 && s.get_char(start) == 'j' && s.get_char(start + 1) == 's'
            && s.get_char(start + 2) == 'o' && s.get_char(start + 3) == 'n' {
            assert(trimmed.subrange(0, 4) == json_word());
            start = start + 4;
        } else {
            assert(trimmed.len() >= 4 ==> trimmed.subrange(0, 4) != json_word()) by {
                if trimmed.len() >= 4 {
                    assert(trimmed.subrange(0, 4)[0] == trimmed[0]);
                    assert(trimmed.subrange(0, 4)[1] == trimmed[1]);
                    assert(trimmed.subrange(0, 4)[2] == trimmed[2]);
                    assert(trimmed.subrange(0, 4)[3] == trimmed[3]);
                }
            }
        }
        assert(drop_json_tag(trimmed) == s@.subrange(start as int, end as int));
        let ghost untagged = s@.subrange(start as int, end as int);
        while end - start >= 2 && s.get_char(start) == '\\' && s.get_char(start + 1) == 'n'
            invariant
                start <= end <= s@.len(),
                drop_escaped_newlines(untagged) == drop_escaped_newlines(
                    s@.subrange(start as int, end as int),
                ),
            decreases end - start,
        {
            assert(s@.subrange(start as int, end as int).subrange(2, end - start) == s@.subrange(
                start + 2,
                end as int,
            ));
            start = start + 2;
        }
        let body = skip_spaces(s, start, end);
        let r = s.substring_char(body, end).to_string();
        r
    }
}

} // verus!
