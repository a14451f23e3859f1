//! The key under which the result of a request is kept.

use crate::hash::{sha256, sha256_digest};
use crate::hex::{lemma_lower_hex_has_no_dot, lemma_lower_hex_injective, lower_hex, to_lower_hex};
use vstd::prelude::*;
use vstd::utf8::{decode_utf8, encode_utf8, encode_utf8_decode_utf8};

verus! {

/// The bytes that are digested for a request: the UTF-8 bytes of the query
/// text, then those of the command, with nothing between them.
pub open spec fn digest_input(sql: Seq<char>, command: Seq<char>) -> Seq<u8> {
    encode_utf8(sql) + encode_utf8(command)
}

/// The key of a request: the lowercase hex digest of its bytes, a dot, and
/// the command as it was given.
pub open spec fn key_text(sql: Seq<char>, command: Seq<char>) -> Seq<char> {
    lower_hex(sha256(digest_input(sql, command))) + seq!['.'] + command
}

/// Derives the key of the request made of `sql` and `command`.
pub fn get_key(sql: &str, command: &str) -> (key: String)
    ensures
        key@ == key_text(sql@, command@),
        key@.len() == 65 + command@.len(),
{
    let mut input: Vec<u8> = Vec::new();
    input.extend_from_slice(sql.as_bytes());
    input.extend_from_slice(command.as_bytes());
    assert(input@ =~= digest_input(sql@, command@));
    let digest = sha256_digest(input.as_slice());
    let mut key = to_lower_hex(digest.as_slice());
    proof {
        reveal_strlit(".");
    }
    key.append(".");
    key.append(command);
    assert(key@ =~= key_text(sql@, command@));
    key
}

/// Key derivation is a function of the request: the same query text and
/// command always give the same key.
pub proof fn lemma_key_is_stable(
    sql_a: Seq<char>,
    command_a: Seq<char>,
    sql_b: Seq<char>,
    command_b: Seq<char>,
)
    requires
        sql_a == sql_b,
        command_a == command_b,
    ensures
        key_text(sql_a, command_a) == key_text(sql_b, command_b),
{
}

/// Two requests share a key only if their commands are the same and their
/// bytes have the same digest.
pub proof fn lemma_shared_key_needs_shared_digest(
    sql_a: Seq<char>,
    command_a: Seq<char>,
    sql_b: Seq<char>,
    command_b: Seq<char>,
)
    requires
        key_text(sql_a, command_a) == key_text(sql_b, command_b),
    ensures
        command_a == command_b,
        sha256(digest_input(sql_a, command_a)) == sha256(digest_input(sql_b, command_b)),
{
    let digest_a = sha256(digest_input(sql_a, command_a));
    let digest_b = sha256(digest_input(sql_b, command_b));
    let hex_a = lower_hex(digest_a);
    let hex_b = lower_hex(digest_b);
    let key_a = key_text(sql_a, command_a);
    let key_b = key_text(sql_b, command_b);
    // The first dot of a key ends its hex part, so both hex parts have one length.
    assert(key_a[hex_a.len() as int] == '.');
    assert(key_b[hex_b.len() as int] == '.');
    if hex_a.len() < hex_b.len() {
        assert(key_b[hex_a.len() as int] == hex_b[hex_a.len() as int]);
        lemma_lower_hex_has_no_dot(digest_b, hex_a.len() as int);
    }
    if hex_b.len() < hex_a.len() {
        assert(key_a[hex_b.len() as int] == hex_a[hex_b.len() as int]);
        lemma_lower_hex_has_no_dot(digest_a, hex_b.len() as int);
    }
    assert(hex_a.len() == hex_b.len());
    assert forall|i: int| 0 <= i < hex_a.len() implies hex_a[i] == hex_b[i] by {
        assert(key_a[i] == hex_a[i]);
        assert(key_b[i] == hex_b[i]);
    }
    assert(hex_a =~= hex_b);
    lemma_lower_hex_injective(digest_a, digest_b);
    assert(key_a.len() == hex_a.len() + 1 + command_a.len());
    assert(key_b.len() == hex_b.len() + 1 + command_b.len());
    assert forall|i: int| 0 <= i < command_a.len() implies command_a[i] == command_b[i] by {
        assert(key_a[hex_a.len() + 1 + i] == command_a[i]);
        assert(key_b[hex_b.len() + 1 + i] == command_b[i]);
    }
    assert(command_a =~= command_b);
}

/// Two requests with one command and different query texts are digested
/// from different bytes.
pub proof fn lemma_distinct_requests_digest_distinct_bytes(
    sql_a: Seq<char>,
    sql_b: Seq<char>,
    command: Seq<char>,
)
    requires
        sql_a != sql_b,
    ensures
        digest_input(sql_a, command) != digest_input(sql_b, command),
{
    let tail = encode_utf8(command);
    let bytes_a = encode_utf8(sql_a);
    let bytes_b = encode_utf8(sql_b);
    if bytes_a + tail == bytes_b + tail {
        assert(bytes_a.len() == bytes_b.len()) by {
            assert((bytes_a + tail).len() == (bytes_b + tail).len());
        }
        assert forall|i: int| 0 <= i < bytes_a.len() implies bytes_a[i] == bytes_b[i] by {
            assert((bytes_a + tail)[i] == bytes_a[i]);
            assert((bytes_b + tail)[i] == bytes_b[i]);
        }
        assert(bytes_a =~= bytes_b);
        encode_utf8_decode_utf8(sql_a);
        encode_utf8_decode_utf8(sql_b);
        assert(decode_utf8(bytes_a) == sql_a);
        assert(decode_utf8(bytes_b) == sql_b);
    }
}

/// Two different requests share a key only where SHA-256 collides: their
/// commands are then the same, and two different byte strings have the same
/// digest.
pub proof fn lemma_shared_key_is_digest_collision(
    sql_a: Seq<char>,
    command_a: Seq<char>,
    sql_b: Seq<char>,
    command_b: Seq<char>,
)
    requires
        sql_a != sql_b || command_a != command_b,
        key_text(sql_a, command_a) == key_text(sql_b, command_b),
    ensures
        command_a == command_b,
        digest_input(sql_a, command_a) != digest_input(sql_b, command_b),
        sha256(digest_input(sql_a, command_a)) == sha256(digest_input(sql_b, command_b)),
{
    lemma_shared_key_needs_shared_digest(sql_a, command_a, sql_b, command_b);
    lemma_distinct_requests_digest_distinct_bytes(sql_a, sql_b, command_a);
}

} // verus!
