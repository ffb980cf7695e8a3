//! Wire form of the bind addresses that travel beside file descriptors: the
//! UTF-8 text of each address, with one space between two of them.
use crate::errno::Errno;
use vstd::prelude::*;
use vstd::string::*;
use vstd::utf8::*;

verus! {

/// The bytes that separate two addresses: ASCII whitespace.
pub open spec fn is_separator(b: u8) -> bool {
    b == 0x20 || b == 0x09 || b == 0x0a || b == 0x0c || b == 0x0d
}

/// How many bytes stand at the front of `b` before the first separator.
pub open spec fn run_len(b: Seq<u8>) -> nat
    decreases b.len(),
{
    if b.len() == 0 || is_separator(b[0]) {
        0
    } else {
        1 + run_len(b.skip(1))
    }
}

/// The maximal runs of bytes of `b` that hold no separator, in order.
pub open spec fn tokens(b: Seq<u8>) -> Seq<Seq<u8>>
    decreases b.len(),
{
    if b.len() == 0 {
        seq![]
    } else if is_separator(b[0]) {
        tokens(b.skip(1))
    } else {
        proof {
            lemma_run_len(b);
        }
        seq![b.take(run_len(b) as int)] + tokens(b.skip(run_len(b) as int))
    }
}

/// The text of each string.
pub open spec fn texts(v: Seq<String>) -> Seq<Seq<char>> {
    v.map_values(|s: String| s@)
}

/// The text of each run of bytes.
pub open spec fn decoded(v: Seq<Seq<u8>>) -> Seq<Seq<char>> {
    v.map_values(|b: Seq<u8>| decode_utf8(b))
}

/// The UTF-8 bytes of the addresses, with one space between two of them.
pub open spec fn joined(keys: Seq<Seq<char>>) -> Seq<u8>
    decreases keys.len(),
{
    if keys.len() == 0 {
        seq![]
    } else if keys.len() == 1 {
        encode_utf8(keys[0])
    } else {
        joined(keys.drop_last()) + seq![0x20u8] + encode_utf8(keys.last())
    }
}

/// An address that the wire form can carry: not empty, and without ASCII
/// whitespace.
pub open spec fn is_key(key: Seq<char>) -> bool {
    &&& key.len() > 0
    &&& forall|i: int| 0 <= i < key.len() ==> !is_separator_char(#[trigger] key[i])
}

/// The ASCII whitespace characters.
pub open spec fn is_separator_char(c: char) -> bool {
    c == ' ' || c == '\t' || c == '\n' || c == '\x0c' || c == '\r'
}

/// What `run_len` counts.
pub proof fn lemma_run_len(b: Seq<u8>)
    ensures
        run_len(b) <= b.len(),
        forall|i: int| 0 <= i < run_len(b) ==> !is_separator(#[trigger] b[i]),
        run_len(b) < b.len() ==> is_separator(b[run_len(b) as int]),
    decreases b.len(),
{
    if b.len() > 0 && !is_separator(b[0]) {
        let rest = b.skip(1);
        lemma_run_len(rest);
        assert forall|i: int| 0 <= i < run_len(b) implies !is_separator(#[trigger] b[i]) by {
            if i > 0 {
                assert(b[i] == rest[i - 1]);
            }
        }
    }
}

proof fn lemma_run_len_is(b: Seq<u8>, n: nat)
    requires
        n <= b.len(),
        forall|i: int| 0 <= i < n ==> !is_separator(#[trigger] b[i]),
        n < b.len() ==> is_separator(b[n as int]),
    ensures
        run_len(b) == n,
{
    lemma_run_len(b);
    if run_len(b) < n {
        assert(!is_separator(b[run_len(b) as int]));
    } else if run_len(b) > n {
        assert(!is_separator(b[n as int]));
    }
}

/// A separator splits the runs of the whole into those before it and those
/// behind it.
proof fn lemma_tokens_split(a: Seq<u8>, sep: u8, b: Seq<u8>)
    requires
        is_separator(sep),
    ensures
        tokens(a + seq![sep] + b) == tokens(a) + tokens(b),
    decreases a.len(),
{
    let whole = a + seq![sep] + b;
    if a.len() == 0 {
        assert(whole[0] == sep);
        assert(whole.skip(1) =~= b);
        assert(tokens(a) + tokens(b) =~= tokens(b));
    } else if is_separator(a[0]) {
        assert(whole[0] == a[0]);
        assert(whole.skip(1) =~= a.skip(1) + seq![sep] + b);
        lemma_tokens_split(a.skip(1), sep, b);
    } else {
        let n = run_len(a);
        lemma_run_len(a);
        assert forall|i: int| 0 <= i < n implies !is_separator(#[trigger] whole[i]) by {
            assert(whole[i] == a[i]);
        }
        if n < a.len() {
            assert(whole[n as int] == a[n as int]);
        } else {
            assert(whole[n as int] == sep);
        }
        lemma_run_len_is(whole, n);
        assert(whole[0] == a[0]);
        assert(whole.take(n as int) =~= a.take(n as int));
        assert(whole.skip(n as int) =~= a.skip(n as int) + seq![sep] + b);
        lemma_tokens_split(a.skip(n as int), sep, b);
        assert(tokens(whole) =~= tokens(a) + tokens(b));
    }
}

proof fn lemma_tokens_of_run(b: Seq<u8>)
    requires
        b.len() > 0,
        forall|i: int| 0 <= i < b.len() ==> !is_separator(#[trigger] b[i]),
    ensures
        tokens(b) == seq![b],
{
    lemma_run_len_is(b, b.len());
    assert(!is_separator(b[0]));
    assert(b.take(b.len() as int) =~= b);
    assert(b.skip(b.len() as int) =~= Seq::<u8>::empty());
    assert(tokens(b) =~= seq![b]) by {
        reveal_with_fuel(tokens, 2);
    }
}

/// Bytes of a scalar's encoding that are ASCII are the scalar itself.
proof fn lemma_scalar_bytes(c: u32, i: int)
    requires
        is_scalar(c),
        0 <= i < encode_scalar(c).len(),
    ensures
        encode_scalar(c)[i] < 0x80 ==> encode_scalar(c)[i] == c,
        encode_scalar(c).len() > 0,
{
    if has_width_1_encoding(c) {
        assert(leading_byte_width_1(c) == c) by (bit_vector)
            requires
                has_width_1_encoding(c),
        ;
    } else if has_width_2_encoding(c) {
        assert(leading_byte_width_2(c) >= 0x80 && last_continuation_byte(c) >= 0x80)
            by (bit_vector)
            requires
                has_width_2_encoding(c),
        ;
    } else if has_width_3_encoding(c) {
        assert(leading_byte_width_3(c) >= 0x80 && second_last_continuation_byte(c) >= 0x80
            && last_continuation_byte(c) >= 0x80) by (bit_vector)
            requires
                has_width_3_encoding(c),
        ;
    } else {
        assert(leading_byte_width_4(c) >= 0x80 && third_last_continuation_byte(c) >= 0x80
            && second_last_continuation_byte(c) >= 0x80 && last_continuation_byte(c) >= 0x80)
            by (bit_vector)
            requires
                has_width_4_encoding(c),
        ;
    }
}

proof fn lemma_separator_char(c: char)
    ensures
        is_separator_char(c) <==> (c as u32 == 0x20 || c as u32 == 0x09 || c as u32 == 0x0a || c as u32
            == 0x0c || c as u32 == 0x0d),
{
}

proof fn lemma_key_bytes(key: Seq<char>)
    requires
        forall|i: int| 0 <= i < key.len() ==> !is_separator_char(#[trigger] key[i]),
    ensures
        forall|i: int|
            0 <= i < encode_utf8(key).len() ==> !is_separator(#[trigger] encode_utf8(key)[i]),
        key.len() > 0 ==> encode_utf8(key).len() > 0,
    decreases key.len(),
{
    if key.len() > 0 {
        let c = key[0] as u32;
        char_is_scalar(key[0]);
        let rest = key.drop_first();
        lemma_key_bytes(rest);
        assert(!is_separator_char(key[0]));
        assert forall|i: int| 0 <= i < encode_utf8(key).len() implies !is_separator(
            #[trigger] encode_utf8(key)[i],
        ) by {
            let n = encode_scalar(c).len();
            if i < n {
                lemma_scalar_bytes(c, i);
                assert(encode_utf8(key)[i] == encode_scalar(c)[i]);
                lemma_separator_char(key[0]);
            } else {
                assert(encode_utf8(key)[i] == encode_utf8(rest)[i - n]);
            }
        }
        lemma_scalar_bytes(c, 0);
    }
}

/// In valid UTF-8 a position beside an ASCII byte is a character boundary.
proof fn lemma_boundary(b: Seq<u8>, i: int)
    requires
        valid_utf8(b),
        0 <= i <= b.len(),
        i == 0 || i == b.len() || b[i - 1] < 0x80 || b[i] < 0x80,
    ensures
        is_char_boundary(b, i),
{
    if i == 0 || i == b.len() {
        is_char_boundary_start_end_of_seq(b);
    } else if b[i] < 0x80 {
        is_char_boundary_iff_not_is_continuation_byte(b, i);
    } else {
        is_char_boundary_iff_not_is_continuation_byte(b, i - 1);
        valid_utf8_split(b, i - 1);
        let tail = b.subrange(i - 1, b.len() as int);
        assert(tail[0] == b[i - 1]);
        assert(pop_first_scalar(tail) =~= b.subrange(i, b.len() as int));
        assert(pop_first_scalar(tail)[0] == b[i]);
        reveal_with_fuel(valid_utf8, 3);
        is_char_boundary_iff_not_is_continuation_byte(b, i);
    }
}

/// A run between two separators of valid UTF-8 is valid UTF-8.
proof fn lemma_run_valid(b: Seq<u8>, i: int, j: int)
    requires
        valid_utf8(b),
        0 <= i <= j <= b.len(),
        i == 0 || is_separator(b[i - 1]),
        j == b.len() || is_separator(b[j]),
    ensures
        valid_utf8(b.subrange(i, j)),
{
    lemma_boundary(b, i);
    valid_utf8_split(b, i);
    let tail = b.subrange(i, b.len() as int);
    if j < b.len() {
        assert(tail[j - i] == b[j]);
    }
    lemma_boundary(tail, j - i);
    valid_utf8_split(tail, j - i);
    assert(tail.subrange(0, j - i) =~= b.subrange(i, j));
}

/// Calls `std::str::from_utf8`: a string with the bytes of `buf` where these
/// are valid UTF-8, and nothing where they are not.
#[verifier::external_body]
fn utf8_text(buf: &[u8]) -> (r: Option<&str>)
    ensures
        r is Some <==> valid_utf8(buf@),
        r matches Some(s) ==> encode_utf8(s@) == buf@,
{
    std::str::from_utf8(buf).ok()
}

/// Puts the addresses into their wire form.
pub fn serialize_vec_string(vec_string: &[String]) -> (bytes: Vec<u8>)
    ensures
        bytes@ == joined(texts(vec_string@)),
{
    let mut out: Vec<u8> = Vec::new();
    let ghost keys = texts(vec_string@);
    let mut i: usize = 0;
    while i < vec_string.len()
        invariant
            i <= vec_string@.len(),
            keys == texts(vec_string@),
            out@ == joined(keys.take(i as int)),
        decreases vec_string@.len() - i,
    {
        let ghost before = out@;
        if i > 0 {
            out.push(0x20);
        }
        out.extend_from_slice(vec_string[i].as_str().as_bytes());
        proof {
            let now = keys.take(i + 1);
            assert(now.drop_last() =~= keys.take(i as int));
            assert(now.last() == vec_string@[i as int]@);
            if i > 0 {
                assert(out@ =~= before + seq![0x20u8] + encode_utf8(now.last()));
            } else {
                assert(out@ =~= encode_utf8(now.last()));
            }
        }
        i = i + 1;
    }
    assert(keys.take(i as int) =~= keys);
    out
}

/// Whether `b` separates two addresses.
fn separates(b: u8) -> (r: bool)
    ensures
        r == is_separator(b),
{
    b == 0x20 || b == 0x09 || b == 0x0a || b == 0x0c || b == 0x0d
}

/// Takes the addresses out of their wire form. Bytes that are not valid UTF-8
/// are refused with `EINVAL`; any stretch of ASCII whitespace separates.
pub fn deserialize_vec_string(buf: &[u8]) -> (r: Result<Vec<String>, Errno>)
    ensures
        r is Ok <==> valid_utf8(buf@),
        r matches Ok(keys) ==> texts(keys@) == decoded(tokens(buf@)),
        r matches Err(e) ==> e == Errno::EINVAL,
{
    if utf8_text(buf).is_none() {
        return Err(Errno::EINVAL);
    }
    let mut keys: Vec<String> = Vec::new();
    let ghost mut done: Seq<Seq<u8>> = seq![];
    let mut i: usize = 0;
    assert(buf@.skip(0) =~= buf@);
    while i < buf.len()
        invariant
            valid_utf8(buf@),
            i <= buf@.len(),
            i == 0 || i == buf@.len() || is_separator(buf@[i - 1]) || is_separator(buf@[i as int]),
            texts(keys@) == decoded(done),
            tokens(buf@) == done + tokens(buf@.skip(i as int)),
        decreases buf@.len() - i,
    {
        let ghost rest = buf@.skip(i as int);
        if separates(buf[i]) {
            assert(rest[0] == buf@[i as int]);
            assert(rest.skip(1) =~= buf@.skip(i + 1));
            i = i + 1;
        } else {
            let mut j: usize = i;
            while j < buf.len() && !separates(buf[j])
                invariant
                    i <= j <= buf@.len(),
                    forall|k: int| i <= k < j ==> !is_separator(#[trigger] buf@[k]),
                decreases buf@.len() - j,
            {
                j = j + 1;
            }
            proof {
                assert forall|k: int| 0 <= k < j - i implies !is_separator(#[trigger] rest[k]) by {
                    assert(rest[k] == buf@[k + i]);
                }
                if j < buf@.len() {
                    assert(rest[j - i] == buf@[j as int]);
                }
                lemma_run_len_is(rest, (j - i) as nat);
                lemma_run_valid(buf@, i as int, j as int);
                assert(rest[0] == buf@[i as int]);
                assert(rest.take(j - i) =~= buf@.subrange(i as int, j as int));
                assert(rest.skip(j - i) =~= buf@.skip(j as int));
            }
            let run = vstd::slice::slice_subrange(buf, i, j);
            match utf8_text(run) {
                Some(text) => {
                    let ghost old_keys = keys@;
                    keys.push(text.to_owned());
                    proof {
                        encode_utf8_decode_utf8(text@);
                        assert(texts(keys@) =~= texts(old_keys).push(text@));
                        assert(decoded(done.push(run@)) =~= decoded(done).push(text@));
                        assert(done.push(run@) + tokens(buf@.skip(j as int)) =~= done + (seq![run@]
                            + tokens(buf@.skip(j as int))));
                        done = done.push(run@);
                    }
                },
                None => {
                    assert(false);
                },
            }
            i = j;
        }
    }
    assert(done + tokens(buf@.skip(i as int)) =~= done);
    Ok(keys)
}

proof fn lemma_joined_tokens(keys: Seq<Seq<char>>)
    requires
        forall|i: int| 0 <= i < keys.len() ==> is_key(#[trigger] keys[i]),
    ensures
        valid_utf8(joined(keys)),
        tokens(joined(keys)) == keys.map_values(|k: Seq<char>| encode_utf8(k)),
    decreases keys.len(),
{
    if keys.len() > 0 {
        let init = keys.drop_last();
        let last = keys.last();
        assert(is_key(keys[keys.len() - 1]));
        lemma_key_bytes(last);
        lemma_tokens_of_run(encode_utf8(last));
        encode_utf8_valid_utf8(last);
        if keys.len() > 1 {
            assert forall|i: int| 0 <= i < init.len() implies is_key(#[trigger] init[i]) by {
                assert(init[i] == keys[i]);
            }
            lemma_joined_tokens(init);
            lemma_tokens_split(joined(init), 0x20, encode_utf8(last));
            assert(valid_utf8(seq![0x20u8])) by {
                reveal_with_fuel(valid_utf8, 2);
            }
            valid_utf8_concat(joined(init), seq![0x20u8]);
            valid_utf8_concat(joined(init) + seq![0x20u8], encode_utf8(last));
        }
        assert(tokens(joined(keys)) =~= keys.map_values(|k: Seq<char>| encode_utf8(k)));
    } else {
        assert(tokens(joined(keys)) =~= keys.map_values(|k: Seq<char>| encode_utf8(k)));
    }
}

/// Reading the wire form of addresses gives the addresses back, in order,
/// where none is empty and none holds ASCII whitespace.
pub proof fn law_keys_round_trip(keys: Seq<Seq<char>>)
    requires
        forall|i: int| 0 <= i < keys.len() ==> is_key(#[trigger] keys[i]),
    ensures
        valid_utf8(joined(keys)),
        decoded(tokens(joined(keys))) == keys,
{
    lemma_joined_tokens(keys);
    assert forall|i: int| 0 <= i < keys.len() implies #[trigger] decoded(tokens(joined(keys)))[i]
        == keys[i] by {
        encode_utf8_decode_utf8(keys[i]);
    }
    assert(decoded(tokens(joined(keys))) =~= keys);
}

proof fn lemma_joined_valid(keys: Seq<Seq<char>>)
    ensures
        valid_utf8(joined(keys)),
    decreases keys.len(),
{
    if keys.len() > 0 {
        encode_utf8_valid_utf8(keys.last());
        if keys.len() > 1 {
            lemma_joined_valid(keys.drop_last());
            assert(valid_utf8(seq![0x20u8])) by {
                reveal_with_fuel(valid_utf8, 2);
            }
            valid_utf8_concat(joined(keys.drop_last()), seq![0x20u8]);
            valid_utf8_concat(joined(keys.drop_last()) + seq![0x20u8], encode_utf8(keys.last()));
        }
    }
}

/// A cut of valid UTF-8 beside a separator leaves two parts that are valid
/// and have the runs of the whole.
pub proof fn lemma_cut(a: Seq<u8>, b: Seq<u8>)
    requires
        valid_utf8(a + b),
        a.len() == 0 || b.len() == 0 || is_separator(a.last()) || is_separator(b[0]),
    ensures
        valid_utf8(a),
        valid_utf8(b),
        tokens(a + b) == tokens(a) + tokens(b),
{
    let whole = a + b;
    let n = a.len() as int;
    lemma_boundary(whole, n);
    valid_utf8_split(whole, n);
    assert(whole.subrange(0, n) =~= a);
    assert(whole.subrange(n, whole.len() as int) =~= b);
    let none = Seq::<u8>::empty();
    if a.len() == 0 {
        assert(whole =~= b);
        assert(tokens(a) + tokens(b) =~= tokens(b));
    } else if b.len() == 0 {
        assert(whole =~= a);
        assert(tokens(a) + tokens(b) =~= tokens(a));
    } else if is_separator(a.last()) {
        let front = a.drop_last();
        assert(whole =~= front + seq![a.last()] + b);
        assert(a =~= front + seq![a.last()] + none);
        lemma_tokens_split(front, a.last(), b);
        lemma_tokens_split(front, a.last(), none);
        assert(tokens(front) + tokens(none) =~= tokens(front));
    } else {
        let back = b.skip(1);
        assert(whole =~= a + seq![b[0]] + back);
        lemma_tokens_split(a, b[0], back);
    }
}

/// A run of valid UTF-8 is not empty, is valid, and holds no separator.
proof fn lemma_tokens_are_runs(b: Seq<u8>, i: int)
    requires
        valid_utf8(b),
        0 <= i < tokens(b).len(),
    ensures
        tokens(b)[i].len() > 0,
        valid_utf8(tokens(b)[i]),
        forall|j: int| 0 <= j < tokens(b)[i].len() ==> !is_separator(#[trigger] tokens(b)[i][j]),
    decreases b.len(),
{
    if b.len() > 0 {
        if is_separator(b[0]) {
            let front = b.take(1);
            let back = b.skip(1);
            assert(b =~= front + back);
            lemma_cut(front, back);
            lemma_tokens_are_runs(back, i);
        } else {
            let n = run_len(b) as int;
            lemma_run_len(b);
            let front = b.take(n);
            let back = b.skip(n);
            assert(b =~= front + back);
            lemma_cut(front, back);
            if i == 0 {
                assert(tokens(b)[0] == front);
            } else {
                assert(tokens(b)[i] == tokens(back)[i - 1]);
                lemma_tokens_are_runs(back, i - 1);
            }
        }
    }
}

/// A separator in a text is a separator among its bytes.
proof fn lemma_separator_shows(key: Seq<char>, j: int) -> (i: int)
    requires
        0 <= j < key.len(),
        is_separator_char(key[j]),
    ensures
        0 <= i < encode_utf8(key).len(),
        is_separator(encode_utf8(key)[i]),
    decreases key.len(),
{
    let c = key[0] as u32;
    char_is_scalar(key[0]);
    let rest = key.drop_first();
    assert(encode_utf8(key) == encode_scalar(c) + encode_utf8(rest));
    if j == 0 {
        lemma_separator_char(key[0]);
        assert(has_width_1_encoding(c));
        assert(leading_byte_width_1(c) == c) by (bit_vector)
            requires
                has_width_1_encoding(c),
        ;
        0
    } else {
        assert(rest[j - 1] == key[j]);
        encode_scalar(c).len() + lemma_separator_shows(rest, j - 1)
    }
}

/// The wire form of every list of addresses can be read, and it gives the
/// list back exactly where no address is empty and none holds ASCII
/// whitespace.
pub proof fn law_only_keys_round_trip(keys: Seq<Seq<char>>)
    ensures
        valid_utf8(joined(keys)),
        decoded(tokens(joined(keys))) == keys <==> forall|i: int|
            0 <= i < keys.len() ==> is_key(#[trigger] keys[i]),
{
    lemma_joined_valid(keys);
    let runs = tokens(joined(keys));
    if forall|i: int| 0 <= i < keys.len() ==> is_key(#[trigger] keys[i]) {
        law_keys_round_trip(keys);
    }
    if decoded(runs) == keys {
        assert forall|i: int| 0 <= i < keys.len() implies is_key(#[trigger] keys[i]) by {
            let key = keys[i];
            assert(decoded(runs)[i] == key);
            lemma_tokens_are_runs(joined(keys), i);
            decode_utf8_encode_utf8(runs[i]);
            assert(encode_utf8(key) == runs[i]);
            if key.len() == 0 {
                assert(encode_utf8(key).len() == 0);
            }
            assert forall|j: int| 0 <= j < key.len() implies !is_separator_char(
                #[trigger] key[j],
            ) by {
                if is_separator_char(key[j]) {
                    let k = lemma_separator_shows(key, j);
                    assert(!is_separator(runs[i][k]));
                }
            }
        }
    }
}

/// The wire form is empty only for no addresses at all: an empty message
/// carries nothing.
pub proof fn law_empty_form(keys: Seq<Seq<char>>)
    requires
        forall|i: int| 0 <= i < keys.len() ==> is_key(#[trigger] keys[i]),
    ensures
        joined(keys).len() == 0 <==> keys.len() == 0,
{
    if keys.len() > 0 {
        assert(is_key(keys[keys.len() - 1]));
        lemma_key_bytes(keys.last());
    }
}

/// The bytes and characters that separate addresses are space, tab, line feed,
/// form feed and carriage return, and no others.
pub proof fn law_separators(b: u8, c: char)
    ensures
        is_separator(b) <==> b == 32 || b == 9 || b == 10 || b == 12 || b == 13,
        is_separator_char(c) <==> c == ' ' || c == '\t' || c == '\n' || c == '\x0c' || c == '\r',
{
}

/// What the runs of bytes are: none has none; bytes without a separator are
/// one run; and any separator splits the whole into the runs before it and
/// those behind it.
pub proof fn law_tokens(a: Seq<u8>, sep: u8, b: Seq<u8>)
    ensures
        tokens(Seq::<u8>::empty()) == Seq::<Seq<u8>>::empty(),
        a.len() > 0 && (forall|i: int|
            0 <= i < a.len() ==> #[trigger] a[i] != 32 && a[i] != 9 && a[i] != 10 && a[i] != 12
                && a[i] != 13) ==> tokens(a) == seq![a],
        sep == 32 || sep == 9 || sep == 10 || sep == 12 || sep == 13 ==> tokens(
            a + seq![sep] + b,
        ) == tokens(a) + tokens(b),
{
    if a.len() > 0 && (forall|i: int|
        0 <= i < a.len() ==> #[trigger] a[i] != 32 && a[i] != 9 && a[i] != 10 && a[i] != 12
            && a[i] != 13) {
        assert forall|i: int| 0 <= i < a.len() implies !is_separator(#[trigger] a[i]) by {
            assert(a[i] != 32);
        }
        lemma_tokens_of_run(a);
    }
    if is_separator(sep) {
        lemma_tokens_split(a, sep, b);
    }
}

/// What the wire form is: nothing for no address, the UTF-8 bytes for one, and
/// for two lists the forms of both with one space between them.
pub proof fn law_joined(key: Seq<char>, a: Seq<Seq<char>>, b: Seq<Seq<char>>)
    ensures
        joined(Seq::<Seq<char>>::empty()) == Seq::<u8>::empty(),
        joined(seq![key]) == encode_utf8(key),
        a.len() > 0 && b.len() > 0 ==> joined(a + b) == joined(a) + seq![32u8] + joined(b),
    decreases b.len(),
{
    if a.len() > 0 && b.len() > 0 {
        let whole = a + b;
        assert(whole.drop_last() =~= a + b.drop_last());
        assert(whole.last() == b.last());
        if b.len() == 1 {
            assert(a + b.drop_last() =~= a);
            assert(joined(whole) =~= joined(a) + seq![32u8] + joined(b));
        } else {
            law_joined(key, a, b.drop_last());
            assert(joined(whole) =~= joined(a) + seq![32u8] + joined(b));
        }
    }
}

/// Texts and decoded runs stand in the places of what they are made from.
pub proof fn law_texts(v: Seq<String>, runs: Seq<Seq<u8>>)
    ensures
        texts(v).len() == v.len(),
        forall|i: int| 0 <= i < v.len() ==> #[trigger] texts(v)[i] == v[i]@,
        decoded(runs).len() == runs.len(),
        forall|i: int| 0 <= i < runs.len() ==> #[trigger] decoded(runs)[i] == decode_utf8(runs[i]),
{
}

} // verus!
