//! What the status dashboard shows: submission outcomes, the list of found
//! blocks, and table cells cut to fit their column.

use vstd::prelude::*;
use vstd::string::StringSliceAdditionalSpecFns;
use vstd::utf8::{decode_utf8, encode_utf8, is_char_boundary};
use crate::number::{decimal, decimal_string, push_decimal};
use crate::text::{
    ascii_lower, chars_of, contains_chars, occurs_at_chars, contains_seq, is_white_space, join, lemma_join_push,
    lemma_word_len, pieces, push_range, split_whitespace, split_whitespace_ranges,
    to_ascii_lowercase_chars, word_len,
};

verus! {

/// `status` with every run of white space made a single space, and none at either end.
pub open spec fn compact(status: Seq<char>) -> Seq<char> {
    join(split_whitespace(status), " "@)
}

/// Collapses the white space of a node's reply onto one line.
pub fn compact_status(status: &str) -> (r: String)
    ensures
        r@ == compact(status@),
{
    let chars = chars_of(status);
    let words = split_whitespace_ranges(&chars);
    let ghost all = split_whitespace(chars@);
    let mut r = String::new();
    let mut k: usize = 0;
    assert(all.take(0) =~= Seq::<Seq<char>>::empty());
    while k < words.len()
        invariant
            k <= words@.len(),
            all == pieces(chars@, words@),
            crate::text::ranges_within(words@, chars@.len() as int),
            r@ == join(all.take(k as int), " "@),
        decreases words@.len() - k,
    {
        let (a, b) = words[k];
        assert(all[k as int] == chars@.subrange(a as int, b as int));
        proof {
            lemma_join_push(all.take(k as int), " "@, all[k as int]);
            assert(all.take(k + 1) =~= all.take(k as int).push(all[k as int]));
        }
        if k > 0 {
            r.append(" ");
        }
        push_range(&mut r, &chars, a, b);
        k = k + 1;
    }
    assert(all.take(words@.len() as int) =~= all);
    r
}

/// `w` is a word: not empty, and without white space.
pub open spec fn is_word(w: Seq<char>) -> bool {
    w.len() > 0 && forall|j: int| 0 <= j < w.len() ==> !is_white_space(#[trigger] w[j])
}

proof fn lemma_words_are_words(s: Seq<char>)
    ensures
        forall|k: int| 0 <= k < split_whitespace(s).len() ==> is_word(#[trigger] split_whitespace(s)[k]),
    decreases s.len(),
{
    if s.len() == 0 {
    } else if is_white_space(s[0]) {
        lemma_words_are_words(s.drop_first());
        assert(split_whitespace(s) == split_whitespace(s.drop_first()));
    } else {
        let n = word_len(s);
        lemma_word_len(s);
        lemma_words_are_words(s.skip(n as int));
        let w = s.take(n as int);
        assert(is_word(w)) by {
            assert forall|j: int| 0 <= j < w.len() implies !is_white_space(#[trigger] w[j]) by {
                assert(w[j] == s[j]);
            }
        }
        let rest = split_whitespace(s.skip(n as int));
        assert(split_whitespace(s) == seq![w] + rest);
        assert forall|k: int| 0 <= k < split_whitespace(s).len() implies is_word(#[trigger] split_whitespace(s)[k]) by {
            if k > 0 {
                assert(split_whitespace(s)[k] == rest[k - 1]);
            } else {
                assert(split_whitespace(s)[k] == w);
            }
        }
    }
}

/// The run of non-white-space at the front is not lengthened by what follows
/// a white space.
proof fn lemma_word_len_concat(x: Seq<char>, y: Seq<char>)
    requires
        word_len(x) < x.len() || y.len() == 0 || is_white_space(y[0]),
    ensures
        word_len(x + y) == word_len(x),
    decreases x.len(),
{
    if x.len() == 0 {
        assert(x + y =~= y);
    } else {
        assert((x + y)[0] == x[0]);
        if !is_white_space(x[0]) {
            assert((x + y).drop_first() =~= x.drop_first() + y);
            lemma_word_len_concat(x.drop_first(), y);
        }
    }
}

/// Words of a concatenation whose parts meet at white space.
proof fn lemma_split_concat(x: Seq<char>, y: Seq<char>)
    requires
        x.len() == 0 || y.len() == 0 || is_white_space(x.last()) || is_white_space(y[0]),
    ensures
        split_whitespace(x + y) == split_whitespace(x) + split_whitespace(y),
    decreases x.len(),
{
    if x.len() == 0 {
        assert(x + y =~= y);
        assert(split_whitespace(x) + split_whitespace(y) =~= split_whitespace(y));
    } else if is_white_space(x[0]) {
        assert((x + y)[0] == x[0]);
        assert((x + y).drop_first() =~= x.drop_first() + y);
        if x.len() > 1 {
            assert(x.drop_first().last() == x.last());
        }
        lemma_split_concat(x.drop_first(), y);
    } else {
        let n = word_len(x);
        lemma_word_len(x);
        assert((x + y)[0] == x[0]);
        if n == x.len() && y.len() > 0 && !is_white_space(y[0]) {
            assert(is_white_space(x.last()));
            assert(!is_white_space(x[x.len() - 1]));
        }
        lemma_word_len_concat(x, y);
        assert((x + y).take(n as int) =~= x.take(n as int));
        assert((x + y).skip(n as int) =~= x.skip(n as int) + y);
        let x2 = x.skip(n as int);
        if x2.len() > 0 {
            assert(x2.last() == x.last());
        }
        lemma_split_concat(x2, y);
        assert(split_whitespace(x + y) =~= split_whitespace(x) + split_whitespace(y));
    }
}

/// A word alone splits into itself.
proof fn lemma_split_word(w: Seq<char>)
    requires
        is_word(w),
    ensures
        split_whitespace(w) == seq![w],
{
    assert forall|j: int| 0 <= j < w.len() implies !is_white_space(#[trigger] w[j]) by {}
    lemma_word_len(w);
    if word_len(w) < w.len() {
        assert(!is_white_space(w[word_len(w) as int]));
    }
    assert(w.take(w.len() as int) =~= w);
    assert(w.skip(w.len() as int) =~= Seq::<char>::empty());
    assert(split_whitespace(w) =~= seq![w] + split_whitespace(Seq::<char>::empty()));
}

/// Words joined by single spaces split back into the same words.
proof fn lemma_split_join(ws: Seq<Seq<char>>)
    requires
        forall|k: int| 0 <= k < ws.len() ==> is_word(#[trigger] ws[k]),
    ensures
        split_whitespace(join(ws, " "@)) == ws,
    decreases ws.len(),
{
    reveal_strlit(" ");
    if ws.len() == 0 {
        assert(split_whitespace(Seq::<char>::empty()) =~= ws);
    } else if ws.len() == 1 {
        assert(is_word(ws[0]));
        lemma_split_word(ws[0]);
        assert(seq![ws[0]] =~= ws);
    } else {
        let init = ws.drop_last();
        assert forall|k: int| 0 <= k < init.len() implies is_word(#[trigger] init[k]) by {
            assert(init[k] == ws[k]);
        }
        lemma_split_join(init);
        let last = ws.last();
        assert(is_word(ws[ws.len() - 1]));
        let tail = " "@ + last;
        assert(is_white_space(tail[0]));
        assert(join(ws, " "@) =~= join(init, " "@) + tail);
        lemma_split_concat(join(init, " "@), tail);
        assert(tail[0] == ' ');
        assert(tail.drop_first() =~= last);
        lemma_split_word(last);
        assert(split_whitespace(tail) == split_whitespace(last));
        assert(init + seq![last] =~= ws);
    }
}

/// Compacting a compacted text changes nothing.
pub proof fn compact_idempotent(status: Seq<char>)
    ensures
        compact(compact(status)) == compact(status),
{
    lemma_words_are_words(status);
    lemma_split_join(split_whitespace(status));
}

/// `t` has no white space but single spaces, each between two other characters.
pub open spec fn single_spaced(t: Seq<char>) -> bool {
    forall|i: int|
        0 <= i < t.len() && is_white_space(#[trigger] t[i]) ==> t[i] == ' ' && 0 < i && i + 1 < t.len()
            && !is_white_space(t[i - 1]) && !is_white_space(t[i + 1])
}

proof fn lemma_join_single_spaced(ws: Seq<Seq<char>>)
    requires
        forall|k: int| 0 <= k < ws.len() ==> is_word(#[trigger] ws[k]),
    ensures
        single_spaced(join(ws, " "@)),
        ws.len() > 0 ==> join(ws, " "@).len() > 0 && !is_white_space(join(ws, " "@)[0])
            && !is_white_space(join(ws, " "@).last()),
    decreases ws.len(),
{
    reveal_strlit(" ");
    if ws.len() == 0 {
    } else if ws.len() == 1 {
        let w = ws[0];
        assert(is_word(w));
        assert(!is_white_space(w[0]));
        assert(!is_white_space(w[w.len() - 1]));
    } else {
        let init = ws.drop_last();
        assert forall|k: int| 0 <= k < init.len() implies is_word(#[trigger] init[k]) by {
            assert(init[k] == ws[k]);
        }
        lemma_join_single_spaced(init);
        let j = join(init, " "@);
        let w = ws.last();
        assert(is_word(ws[ws.len() - 1]));
        let t = join(ws, " "@);
        assert(t == j + " "@ + w);
        let n = j.len() as int;
        assert(!is_white_space(j[n - 1]));
        assert(!is_white_space(w[0]));
        assert forall|i: int| 0 <= i < t.len() && is_white_space(#[trigger] t[i]) implies t[i] == ' ' && 0 < i
            && i + 1 < t.len() && !is_white_space(t[i - 1]) && !is_white_space(t[i + 1]) by {
            if i < n {
                assert(t[i] == j[i]);
                assert(is_white_space(j[i]));
                assert(t[i - 1] == j[i - 1]);
                assert(t[i + 1] == j[i + 1]);
            } else if i == n {
                assert(t[i - 1] == j[n - 1]);
                assert(t[i + 1] == w[0]);
            } else {
                assert(t[i] == w[i - n - 1]);
            }
        }
        assert(t[0] == j[0]);
        assert(t.last() == w[w.len() - 1]);
    }
}

/// Compacting keeps exactly the words of the text, in order, and leaves only
/// single spaces between them: no white space at either end, none doubled,
/// and no white-space character other than the space.
pub proof fn compact_keeps_words(status: Seq<char>)
    ensures
        split_whitespace(compact(status)) == split_whitespace(status),
        single_spaced(compact(status)),
{
    lemma_words_are_words(status);
    lemma_split_join(split_whitespace(status));
    lemma_join_single_spaced(split_whitespace(status));
}

/// Where a cell of at most `max_len` bytes is cut when the value is longer:
/// at `max_len` itself for tiny columns, else three bytes earlier to leave room for "...".
pub open spec fn cut_point(max_len: nat) -> nat {
    if max_len <= 3 {
        max_len
    } else {
        (max_len - 3) as nat
    }
}

/// The UTF-8 encoding of a concatenation is the concatenation of the encodings.
pub proof fn lemma_encode_utf8_concat(a: Seq<char>, b: Seq<char>)
    ensures
        encode_utf8(a + b) == encode_utf8(a) + encode_utf8(b),
    decreases a.len(),
{
    if a.len() == 0 {
        assert(a + b =~= b);
    } else {
        lemma_encode_utf8_concat(a.drop_first(), b);
        assert((a + b).drop_first() =~= a.drop_first() + b);
        assert((a + b)[0] == a[0]);
    }
}

/// What a table column of `max_len` bytes shows of `value`: the value when it
/// fits, else its first bytes up to the cut point, followed by "..." when the
/// column is wider than three bytes.
pub open spec fn table_cell(value: Seq<char>, max_len: nat) -> Seq<char> {
    let bytes = encode_utf8(value);
    if bytes.len() <= max_len {
        value
    } else if max_len <= 3 {
        decode_utf8(bytes.take(max_len as int))
    } else {
        decode_utf8(bytes.take(max_len - 3)) + "..."@
    }
}

/// Whether `value` can be shown in a column of `max_len` bytes: it fits, or
/// its cut point falls between two characters.
pub open spec fn cell_fits(value: Seq<char>, max_len: nat) -> bool {
    encode_utf8(value).len() > max_len ==> is_char_boundary(encode_utf8(value), cut_point(max_len) as int)
}

/// Fits `value` into a table column of `max_len` bytes: unchanged when it fits,
/// else cut at a byte boundary, with "..." appended when the column has room.
pub fn truncate_for_table(value: &str, max_len: usize) -> (r: String)
    requires
        value.spec_bytes().len() > max_len ==> is_char_boundary(value.spec_bytes(), cut_point(max_len as nat) as int),
    ensures
        value.spec_bytes().len() <= max_len ==> r@ == value@,
        value.spec_bytes().len() > max_len && max_len <= 3 ==> r@ == decode_utf8(value.spec_bytes().take(max_len as int)),
        value.spec_bytes().len() > max_len && max_len > 3 ==> r@ == decode_utf8(value.spec_bytes().take(max_len - 3)) + "..."@,
        encode_utf8(r@).len() <= max_len || value.spec_bytes().len() <= max_len,
        r@ == table_cell(value@, max_len as nat),
{
    let byte_len = value.as_bytes().len();
    if byte_len <= max_len {
        return String::from_str(value);
    }
    let cut = if max_len <= 3 {
        max_len
    } else {
        max_len - 3
    };
    proof {
        vstd::utf8::encode_utf8_valid_utf8(value@);
        vstd::utf8::valid_utf8_split(value.spec_bytes(), cut as int);
    }
    let (head, _tail) = value.split_at(cut);
    let ghost prefix = value.spec_bytes().subrange(0, cut as int);
    proof {
        vstd::utf8::encode_utf8_decode_utf8(head@);
        assert(prefix =~= value.spec_bytes().take(cut as int));
        assert(head@ == decode_utf8(prefix));
        assert(encode_utf8(head@) == prefix);
    }
    let mut r = String::from_str(head);
    if max_len > 3 {
        r.append("...");
        proof {
            reveal_strlit("...");
            lemma_encode_utf8_concat(head@, "..."@);
            assert(encode_utf8("..."@).len() == 3) by {
                reveal_with_fuel(encode_utf8, 4);
            }
        }
    }
    r
}

/// What a node's reply to a submission means on the dashboard: "accepted" when
/// it mentions acceptance, "ok" or "true" in any ASCII case, else the reply on
/// one line; a failed submission is shown with its error.
pub open spec fn submit_status_text(outcome: Result<Seq<char>, Seq<char>>) -> Seq<char> {
    match outcome {
        Ok(body) => {
            let lower = body.map_values(|c: char| ascii_lower(c));
            if contains_seq(lower, "accepted"@) || contains_seq(lower, "ok"@) || contains_seq(lower, "true"@) {
                "accepted"@
            } else {
                "response: "@ + compact(body)
            }
        },
        Err(e) => "submit failed: "@ + e,
    }
}

/// The outcome of a submission as plain text values.
pub open spec fn outcome_view(outcome: &Result<String, String>) -> Result<Seq<char>, Seq<char>> {
    match outcome {
        Ok(b) => Ok(b@),
        Err(e) => Err(e@),
    }
}

/// The dashboard status of a submission, from the node's reply or the error.
pub fn submit_status(outcome: &Result<String, String>) -> (r: String)
    ensures
        r@ == submit_status_text(outcome_view(outcome)),
{
    match outcome {
        Ok(body) => {
            let chars = chars_of(body.as_str());
            let lower = to_ascii_lowercase_chars(&chars);
            let accepted = chars_of("accepted");
            let ok = chars_of("ok");
            let yes = chars_of("true");
            if contains_chars(&lower, &accepted) || contains_chars(&lower, &ok) || contains_chars(&lower, &yes) {
                String::from_str("accepted")
            } else {
                let mut r = String::from_str("response: ");
                let compacted = compact_status(body.as_str());
                r.append(compacted.as_str());
                r
            }
        },
        Err(e) => {
            let mut r = String::from_str("submit failed: ");
            r.append(e.as_str());
            r
        },
    }
}

/// A block this miner solved, and what became of its submission.
pub struct FoundBlock {
    pub block_height: u64,
    pub nonce: u64,
    pub status: String,
}

/// How many found blocks the dashboard lists.
pub const FOUND_BLOCKS_SHOWN: usize = 8;

/// The list after `block` is found: newest first, at most eight entries.
pub open spec fn with_found(blocks: Seq<FoundBlock>, block: FoundBlock) -> Seq<FoundBlock> {
    let all = seq![block] + blocks;
    if all.len() > 8 {
        all.take(8)
    } else {
        all
    }
}

/// Puts a newly found block at the head of the list, keeping the latest eight.
pub fn record_found_block(blocks: &mut Vec<FoundBlock>, block: FoundBlock)
    ensures
        final(blocks)@ == with_found(old(blocks)@, block),
{
    let ghost before = blocks@;
    blocks.insert(0, block);
    assert(blocks@ =~= seq![block] + before);
    blocks.truncate(FOUND_BLOCKS_SHOWN);
}

/// The dashboard lists at most eight found blocks, the newest first, followed
/// by the ones listed before in their order.
pub proof fn found_list_law(blocks: Seq<FoundBlock>, block: FoundBlock)
    ensures
        with_found(blocks, block).len() <= 8,
        with_found(blocks, block)[0] == block,
        forall|i: int| 1 <= i < with_found(blocks, block).len() ==> #[trigger] with_found(blocks, block)[i] == blocks[i - 1],
        with_found(blocks, block).len() == if blocks.len() >= 8 { 8 } else { blocks.len() + 1 },
{
}

/// The count of accepted blocks after a submission whose dashboard status is
/// `status`: one more when the status is exactly "accepted" (held at the
/// largest `u64`), unchanged otherwise.
pub fn accepted_after(total: u64, status: &str) -> (r: u64)
    ensures
        r == if status@ == "accepted"@ {
            if total == u64::MAX { total } else { (total + 1) as u64 }
        } else {
            total
        },
{
    let text = chars_of(status);
    let accepted = chars_of("accepted");
    let same = text.len() == accepted.len() && occurs_at_chars(&text, &accepted, 0);
    proof {
        if same {
            assert(text@ =~= text@.subrange(0, accepted@.len() as int));
        }
        if status@ == "accepted"@ {
            assert(text@.subrange(0, accepted@.len() as int) =~= text@);
        }
    }
    if same {
        total.saturating_add(1)
    } else {
        total
    }
}

/// An integer in decimal, with a minus sign when negative.
pub open spec fn signed_decimal(v: int) -> Seq<char> {
    if v < 0 {
        "-"@ + decimal((-v) as nat)
    } else {
        decimal(v as nat)
    }
}

/// What a status code from the GPU batch miner means: 1, a nonce was found;
/// 0, the batch was searched without success; anything else, a failure.
pub open spec fn cuda_outcome(status: i32, found_nonce: u64) -> Result<Option<u64>, Seq<char>> {
    if status == 1 {
        Ok(Some(found_nonce))
    } else if status == 0 {
        Ok(None)
    } else {
        Err("CUDA miner failed with code "@ + signed_decimal(status as int))
    }
}

/// Interprets the status code of a GPU mining batch.
pub fn cuda_batch_outcome(status: i32, found_nonce: u64) -> (r: Result<Option<u64>, String>)
    ensures
        match r {
            Ok(found) => cuda_outcome(status, found_nonce) == Ok::<Option<u64>, Seq<char>>(found),
            Err(e) => cuda_outcome(status, found_nonce) == Err::<Option<u64>, Seq<char>>(e@),
        },
{
    if status == 1 {
        return Ok(Some(found_nonce));
    }
    if status == 0 {
        return Ok(None);
    }
    let mut m = String::from_str("CUDA miner failed with code ");
    let ghost prefix = m@;
    if status < 0 {
        m.append("-");
        let magnitude: i64 = -(status as i64);
        push_decimal(&mut m, magnitude as u64);
        assert(m@ =~= prefix + ("-"@ + decimal((-(status as int)) as nat)));
    } else {
        push_decimal(&mut m, status as u64);
    }
    assert(m@ =~= "CUDA miner failed with code "@ + signed_decimal(status as int));
    Err(m)
}

/// `n` spaces.
pub open spec fn spaces(n: nat) -> Seq<char> {
    Seq::new(n, |i: int| ' ')
}

/// `s` left-aligned in a field of `width` characters: followed by spaces up
/// to that width, and unchanged when it is already as wide.
pub open spec fn pad(s: Seq<char>, width: nat) -> Seq<char> {
    if s.len() >= width {
        s
    } else {
        s + spaces((width - s.len()) as nat)
    }
}

/// Appends `s` left-aligned in a field of `width` characters.
pub fn push_padded(out: &mut String, s: &str, width: usize)
    ensures
        final(out)@ == old(out)@ + pad(s@, width as nat),
{
    let n = chars_of(s).len();
    let ghost start = out@;
    out.append(s);
    let mut k = n;
    while k < width
        invariant
            n == s@.len(),
            n <= k,
            k <= width || k == n,
            out@ == start + s@ + spaces((k - n) as nat),
        decreases width - k,
    {
        out.push(' ');
        proof {
            assert(spaces((k + 1 - n) as nat) =~= spaces((k - n) as nat).push(' '));
        }
        k = k + 1;
    }
    proof {
        if n >= width {
            assert(spaces(0) =~= Seq::<char>::empty());
            assert(out@ =~= start + s@);
        } else {
            assert(k == width);
        }
    }
}

/// A dashboard row of three cells, each left-aligned in its field, with one
/// space between fields.
pub open spec fn row3(a: Seq<char>, wa: nat, b: Seq<char>, wb: nat, c: Seq<char>, wc: nat) -> Seq<char> {
    pad(a, wa) + " "@ + pad(b, wb) + " "@ + pad(c, wc)
}

/// A dashboard row of four cells, the first in a field of `wa` characters
/// and the others in fields of `w`.
pub open spec fn row4(a: Seq<char>, wa: nat, b: Seq<char>, c: Seq<char>, d: Seq<char>, w: nat) -> Seq<char> {
    pad(a, wa) + " "@ + pad(b, w) + " "@ + pad(c, w) + " "@ + pad(d, w)
}

/// Lays out three cells as a dashboard row.
pub fn padded_row3(a: &str, wa: usize, b: &str, wb: usize, c: &str, wc: usize) -> (r: String)
    ensures
        r@ == row3(a@, wa as nat, b@, wb as nat, c@, wc as nat),
{
    let mut r = String::new();
    push_padded(&mut r, a, wa);
    r.append(" ");
    push_padded(&mut r, b, wb);
    r.append(" ");
    push_padded(&mut r, c, wc);
    assert(r@ =~= row3(a@, wa as nat, b@, wb as nat, c@, wc as nat));
    r
}

/// Lays out four cells as a dashboard row.
pub fn padded_row4(a: &str, wa: usize, b: &str, c: &str, d: &str, w: usize) -> (r: String)
    ensures
        r@ == row4(a@, wa as nat, b@, c@, d@, w as nat),
{
    let mut r = String::new();
    push_padded(&mut r, a, wa);
    r.append(" ");
    push_padded(&mut r, b, w);
    r.append(" ");
    push_padded(&mut r, c, w);
    r.append(" ");
    push_padded(&mut r, d, w);
    assert(r@ =~= row4(a@, wa as nat, b@, c@, d@, w as nat));
    r
}

/// A horizontal rule of the dashboard: 62 copies of `c`.
pub open spec fn rule(c: char) -> Seq<char> {
    Seq::new(62, |i: int| c)
}

/// The horizontal rule drawn with `c`.
pub fn rule_line(c: char) -> (r: String)
    ensures
        r@ == rule(c),
{
    let mut r = String::new();
    let mut k: usize = 0;
    while k < 62
        invariant
            k <= 62,
            r@ == Seq::new(k as nat, |i: int| c),
        decreases 62 - k,
    {
        r.push(c);
        proof {
            assert(Seq::new((k + 1) as nat, |i: int| c) =~= Seq::new(k as nat, |i: int| c).push(c));
        }
        k = k + 1;
    }
    r
}

/// How the dashboard shows a miner address: whole when it has at most sixteen
/// characters, else its first eight and last eight characters around "...".
pub open spec fn short_address(address: Seq<char>) -> Seq<char> {
    if address.len() <= 16 {
        address
    } else {
        address.take(8) + "..."@ + address.skip(address.len() - 8)
    }
}

/// The shortened form of a miner address.
pub fn shorten_address(address: &str) -> (r: String)
    ensures
        r@ == short_address(address@),
{
    let chars = chars_of(address);
    let n = chars.len();
    if n <= 16 {
        return String::from_str(address);
    }
    let mut r = String::new();
    push_range(&mut r, &chars, 0, 8);
    r.append("...");
    push_range(&mut r, &chars, n - 8, n);
    proof {
        assert(chars@.subrange(0, 8) =~= address@.take(8));
        assert(chars@.subrange(n - 8, n as int) =~= address@.skip(address@.len() - 8));
    }
    r
}

/// The row of the found-blocks table for a block of height `height` solved
/// with `nonce`, whose submission status is `status`.
pub open spec fn found_row(height: u64, nonce: u64, status: Seq<char>) -> Seq<char> {
    row3(decimal(height as nat), 10, decimal(nonce as nat), 22, table_cell(status, 28), 28)
}

/// The row shown while no block has been found.
pub open spec fn no_found_row() -> Seq<char> {
    row3("-"@, 10, "-"@, 22, "none yet"@, 28)
}

/// How many found blocks the table shows out of `n`.
pub open spec fn shown(n: nat) -> nat {
    if n <= 8 {
        n
    } else {
        8
    }
}

/// The rows of the found-blocks table: one per block, the first eight at
/// most, or the placeholder row when there is none.
pub open spec fn found_rows(blocks: Seq<(u64, u64, Seq<char>)>) -> Seq<Seq<char>> {
    if blocks.len() == 0 {
        seq![no_found_row()]
    } else {
        Seq::new(shown(blocks.len()), |i: int| found_row(blocks[i].0, blocks[i].1, blocks[i].2))
    }
}

/// The row of the found-blocks table for `block`.
pub fn found_block_row(block: &FoundBlock) -> (r: String)
    requires
        cell_fits(block.status@, 28),
    ensures
        r@ == found_row(block.block_height, block.nonce, block.status@),
{
    let height = decimal_string(block.block_height);
    let nonce = decimal_string(block.nonce);
    let status = truncate_for_table(block.status.as_str(), 28);
    padded_row3(height.as_str(), 10, nonce.as_str(), 22, status.as_str(), 28)
}

/// What the dashboard shows, with the rates, counts of hashes and durations
/// already written out as text.
pub struct DashboardView {
    pub mode: String,
    pub device: String,
    pub endpoint: String,
    pub block_height: u64,
    pub target_bits: u32,
    pub current_rate: String,
    pub average_rate: String,
    pub checked: String,
    pub eta: String,
    pub uptime: String,
    pub start_nonce: u64,
    pub miner_address: String,
    pub total_blocks_found: u64,
    pub accepted_blocks: u64,
    pub blocks_found: Vec<FoundBlock>,
}

/// A dashboard's contents as plain values; each found block is its height,
/// its nonce and its status.
pub struct DashboardModel {
    pub mode: Seq<char>,
    pub device: Seq<char>,
    pub endpoint: Seq<char>,
    pub block_height: u64,
    pub target_bits: u32,
    pub current_rate: Seq<char>,
    pub average_rate: Seq<char>,
    pub checked: Seq<char>,
    pub eta: Seq<char>,
    pub uptime: Seq<char>,
    pub start_nonce: u64,
    pub miner_address: Seq<char>,
    pub total_blocks_found: u64,
    pub accepted_blocks: u64,
    pub blocks_found: Seq<(u64, u64, Seq<char>)>,
}

impl View for DashboardView {
    type V = DashboardModel;

    open spec fn view(&self) -> DashboardModel {
        DashboardModel {
            mode: self.mode@,
            device: self.device@,
            endpoint: self.endpoint@,
            block_height: self.block_height,
            target_bits: self.target_bits,
            current_rate: self.current_rate@,
            average_rate: self.average_rate@,
            checked: self.checked@,
            eta: self.eta@,
            uptime: self.uptime@,
            start_nonce: self.start_nonce,
            miner_address: self.miner_address@,
            total_blocks_found: self.total_blocks_found,
            accepted_blocks: self.accepted_blocks,
            blocks_found: self.blocks_found@.map_values(|b: FoundBlock| (b.block_height, b.nonce, b.status@)),
        }
    }
}

/// The lines of the dashboard above the found-blocks rows.
pub open spec fn dashboard_head(v: DashboardModel) -> Seq<Seq<char>> {
    seq![
        "QL MINER - SRB STYLE STATUS"@,
        rule('='),
        row3("Mode"@, 18, "Device"@, 18, "RPC Endpoint"@, 18),
        row3(v.mode, 18, v.device, 18, v.endpoint, 18),
        "Miner: "@ + short_address(v.miner_address),
        rule('-'),
        row4("Block"@, 14, "Target"@, "Current H/s"@, "Average H/s"@, 18),
        row4(decimal(v.block_height as nat), 14, decimal(v.target_bits as nat) + " bits"@, v.current_rate, v.average_rate, 18),
        rule('-'),
        row4("Checked"@, 18, "ETA"@, "Uptime"@, "Start Nonce"@, 18),
        row4(v.checked, 18, v.eta, v.uptime, decimal(v.start_nonce as nat), 18),
        rule('-'),
        "Blocks Found: "@ + decimal(v.total_blocks_found as nat),
        "Accepted Blocks: "@ + decimal(v.accepted_blocks as nat),
        row3("Block"@, 10, "Nonce"@, 22, "Status"@, 28),
    ]
}

/// The lines of the dashboard below the found-blocks rows.
pub open spec fn dashboard_foot() -> Seq<Seq<char>> {
    seq![rule('='), "Ctrl+C to stop. Dashboard refreshes in-place."@]
}

/// The dashboard, line by line.
pub open spec fn dashboard_spec(v: DashboardModel) -> Seq<Seq<char>> {
    dashboard_head(v) + found_rows(v.blocks_found) + dashboard_foot()
}

/// Whether every status that the table shows fits its column or can be cut
/// between two characters.
pub open spec fn statuses_fit(blocks: Seq<(u64, u64, Seq<char>)>) -> bool {
    forall|i: int| 0 <= i < shown(blocks.len()) ==> cell_fits(#[trigger] blocks[i].2, 28)
}

/// The dashboard's lines of text, from the top.
pub fn dashboard_lines(v: &DashboardView) -> (r: Vec<String>)
    requires
        statuses_fit(v@.blocks_found),
    ensures
        r@.len() == dashboard_spec(v@).len(),
        forall|i: int| 0 <= i < r@.len() ==> #[trigger] r@[i]@ == dashboard_spec(v@)[i],
        r@[12]@ == "Blocks Found: "@ + decimal(v.total_blocks_found as nat),
        r@[13]@ == "Accepted Blocks: "@ + decimal(v.accepted_blocks as nat),
{
    let ghost target = dashboard_spec(v@);
    let ghost head = dashboard_head(v@);
    let ghost rows = found_rows(v@.blocks_found);
    let mut miner = String::from_str("Miner: ");
    let short = shorten_address(v.miner_address.as_str());
    miner.append(short.as_str());
    let height = decimal_string(v.block_height);
    let mut target_cell = decimal_string(v.target_bits as u64);
    target_cell.append(" bits");
    let start = decimal_string(v.start_nonce);
    let mut found = String::from_str("Blocks Found: ");
    push_decimal(&mut found, v.total_blocks_found);
    let mut accepted = String::from_str("Accepted Blocks: ");
    push_decimal(&mut accepted, v.accepted_blocks);
    let mut lines: Vec<String> = vec![
        String::from_str("QL MINER - SRB STYLE STATUS"),
        rule_line('='),
        padded_row3("Mode", 18, "Device", 18, "RPC Endpoint", 18),
        padded_row3(v.mode.as_str(), 18, v.device.as_str(), 18, v.endpoint.as_str(), 18),
        miner,
        rule_line('-'),
        padded_row4("Block", 14, "Target", "Current H/s", "Average H/s", 18),
        padded_row4(
            height.as_str(),
            14,
            target_cell.as_str(),
            v.current_rate.as_str(),
            v.average_rate.as_str(),
            18,
        ),
        rule_line('-'),
        padded_row4("Checked", 18, "ETA", "Uptime", "Start Nonce", 18),
        padded_row4(v.checked.as_str(), 18, v.eta.as_str(), v.uptime.as_str(), start.as_str(), 18),
        rule_line('-'),
        found,
        accepted,
        padded_row3("Block", 10, "Nonce", 22, "Status", 28),
    ];
    assert(lines@.len() == head.len());
    assert(forall|j: int| 0 <= j < head.len() ==> #[trigger] lines@[j]@ == head[j]);
    let count = v.blocks_found.len();
    if count == 0 {
        lines.push(padded_row3("-", 10, "-", 22, "none yet", 28));
    } else {
        let n = if count <= 8 {
            count
        } else {
            8
        };
        let mut i: usize = 0;
        while i < n
            invariant
                count == v.blocks_found@.len(),
                count > 0,
                statuses_fit(v@.blocks_found),
                rows == found_rows(v@.blocks_found),
                n == shown(count as nat),
                i <= n,
                rows.len() == n,
                lines@.len() == head.len() + i,
                forall|j: int| 0 <= j < head.len() ==> #[trigger] lines@[j]@ == head[j],
                forall|j: int| 0 <= j < i ==> #[trigger] lines@[head.len() + j]@ == rows[j],
            decreases n - i,
        {
            let block = &v.blocks_found[i];
            proof {
                assert(v@.blocks_found[i as int] == (block.block_height, block.nonce, block.status@));
                assert(cell_fits(v@.blocks_found[i as int].2, 28));
            }
            let row = found_block_row(block);
            proof {
                assert(rows[i as int] == found_row(block.block_height, block.nonce, block.status@));
            }
            lines.push(row);
            i = i + 1;
        }
    }
    assert(lines@.len() == head.len() + rows.len());
    lines.push(rule_line('='));
    lines.push(String::from_str("Ctrl+C to stop. Dashboard refreshes in-place."));
    proof {
        dashboard_counts(v@, v@.blocks_found);
        assert forall|i: int| 0 <= i < lines@.len() implies #[trigger] lines@[i]@ == target[i] by {
            if i < head.len() {
            } else if i < head.len() + rows.len() {
                let k = i - head.len();
                assert(lines@[head.len() + k]@ == rows[k]);
            }
        }
    }
    lines
}

/// The dashboard shows the running totals it is given: "Blocks Found" is the
/// number of blocks found so far and "Accepted Blocks" the number accepted,
/// whatever the list of found blocks holds, and everything above the table's
/// rows stays the same whatever blocks are listed. Below them, the table has
/// one row per block for the first eight blocks, newest first as listed, or
/// a single placeholder row when there is none, and then two closing lines.
pub proof fn dashboard_counts(v: DashboardModel, other_blocks: Seq<(u64, u64, Seq<char>)>)
    ensures
        dashboard_spec(v)[12] == "Blocks Found: "@ + decimal(v.total_blocks_found as nat),
        dashboard_spec(v)[13] == "Accepted Blocks: "@ + decimal(v.accepted_blocks as nat),
        dashboard_spec(v).len() == 17 + if v.blocks_found.len() == 0 {
            1
        } else if v.blocks_found.len() <= 8 {
            v.blocks_found.len()
        } else {
            8
        },
        forall|i: int| 0 <= i < 8 && i < v.blocks_found.len() ==> #[trigger] dashboard_spec(v)[15 + i] == row3(
            decimal(v.blocks_found[i].0 as nat),
            10,
            decimal(v.blocks_found[i].1 as nat),
            22,
            table_cell(v.blocks_found[i].2, 28),
            28,
        ),
        dashboard_spec(v).take(15) == dashboard_spec((DashboardModel { blocks_found: other_blocks, ..v })).take(15),
{
    let w = DashboardModel { blocks_found: other_blocks, ..v };
    assert(dashboard_head(v) == dashboard_head(w));
    assert(dashboard_head(v).len() == 15);
    assert(dashboard_spec(v).take(15) =~= dashboard_head(v));
    assert(dashboard_spec(w).take(15) =~= dashboard_head(w));
    assert forall|i: int| 0 <= i < 8 && i < v.blocks_found.len() implies #[trigger] dashboard_spec(v)[15 + i] == row3(
        decimal(v.blocks_found[i].0 as nat),
        10,
        decimal(v.blocks_found[i].1 as nat),
        22,
        table_cell(v.blocks_found[i].2, 28),
        28,
    ) by {
        assert(dashboard_spec(v)[15 + i] == found_rows(v.blocks_found)[i]);
    }
}

} // verus!
