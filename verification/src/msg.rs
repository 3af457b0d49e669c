//! The fixed texts the protocol and the command layer write: error
//! messages, labels, and the canonical `OK` reply, held as bytes.
use vstd::prelude::*;
use crate::wire::clean_text;

verus! {

/// The text `Invalid length`.
pub open spec fn invalid_length_text() -> Seq<u8> {
    seq![73u8, 110u8, 118u8, 97u8, 108u8, 105u8, 100u8, 32u8, 108u8, 101u8, 110u8, 103u8, 116u8, 104u8]
}

/// The bytes of `Invalid length`.
pub fn invalid_length_bytes() -> (r: Vec<u8>)
    ensures
        r@ == invalid_length_text(),
{
    let r: Vec<u8> = vec![73, 110, 118, 97, 108, 105, 100, 32, 108, 101, 110, 103, 116, 104];
    proof {
        assert(r@ =~= invalid_length_text());
    }
    r
}

/// The text `Invalid bool`.
pub open spec fn invalid_bool_text() -> Seq<u8> {
    seq![73u8, 110u8, 118u8, 97u8, 108u8, 105u8, 100u8, 32u8, 98u8, 111u8, 111u8, 108u8]
}

/// The bytes of `Invalid bool`.
pub fn invalid_bool_bytes() -> (r: Vec<u8>)
    ensures
        r@ == invalid_bool_text(),
{
    let r: Vec<u8> = vec![73, 110, 118, 97, 108, 105, 100, 32, 98, 111, 111, 108];
    proof {
        assert(r@ =~= invalid_bool_text());
    }
    r
}

/// The text `Invalid null`.
pub open spec fn invalid_null_text() -> Seq<u8> {
    seq![73u8, 110u8, 118u8, 97u8, 108u8, 105u8, 100u8, 32u8, 110u8, 117u8, 108u8, 108u8]
}

/// The bytes of `Invalid null`.
pub fn invalid_null_bytes() -> (r: Vec<u8>)
    ensures
        r@ == invalid_null_text(),
{
    let r: Vec<u8> = vec![73, 110, 118, 97, 108, 105, 100, 32, 110, 117, 108, 108];
    proof {
        assert(r@ =~= invalid_null_text());
    }
    r
}

/// The text `map key must be simple string`.
pub open spec fn map_key_kind_text() -> Seq<u8> {
    seq![109u8, 97u8, 112u8, 32u8, 107u8, 101u8, 121u8, 32u8, 109u8, 117u8, 115u8, 116u8, 32u8, 98u8, 101u8, 32u8, 115u8, 105u8, 109u8, 112u8, 108u8, 101u8, 32u8, 115u8, 116u8, 114u8, 105u8, 110u8, 103u8]
}

/// The bytes of `map key must be simple string`.
pub fn map_key_kind_bytes() -> (r: Vec<u8>)
    ensures
        r@ == map_key_kind_text(),
{
    let r: Vec<u8> = vec![109, 97, 112, 32, 107, 101, 121, 32, 109, 117, 115, 116, 32, 98, 101, 32, 115, 105, 109, 112, 108, 101, 32, 115, 116, 114, 105, 110, 103];
    proof {
        assert(r@ =~= map_key_kind_text());
    }
    r
}

/// The text `does not support prefix `.
pub open spec fn unsupported_prefix_text() -> Seq<u8> {
    seq![100u8, 111u8, 101u8, 115u8, 32u8, 110u8, 111u8, 116u8, 32u8, 115u8, 117u8, 112u8, 112u8, 111u8, 114u8, 116u8, 32u8, 112u8, 114u8, 101u8, 102u8, 105u8, 120u8, 32u8]
}

/// The bytes of `does not support prefix `.
pub fn unsupported_prefix_bytes() -> (r: Vec<u8>)
    ensures
        r@ == unsupported_prefix_text(),
{
    let r: Vec<u8> = vec![100, 111, 101, 115, 32, 110, 111, 116, 32, 115, 117, 112, 112, 111, 114, 116, 32, 112, 114, 101, 102, 105, 120, 32];
    proof {
        assert(r@ =~= unsupported_prefix_text());
    }
    r
}

/// The text `array`.
pub open spec fn array_label_text() -> Seq<u8> {
    seq![97u8, 114u8, 114u8, 97u8, 121u8]
}

/// The bytes of `array`.
pub fn array_label_bytes() -> (r: Vec<u8>)
    ensures
        r@ == array_label_text(),
{
    let r: Vec<u8> = vec![97, 114, 114, 97, 121];
    proof {
        assert(r@ =~= array_label_text());
    }
    r
}

/// The text `i64`.
pub open spec fn i64_label_text() -> Seq<u8> {
    seq![105u8, 54u8, 52u8]
}

/// The bytes of `i64`.
pub fn i64_label_bytes() -> (r: Vec<u8>)
    ensures
        r@ == i64_label_text(),
{
    let r: Vec<u8> = vec![105, 54, 52];
    proof {
        assert(r@ =~= i64_label_text());
    }
    r
}

/// The text `double`.
pub open spec fn double_label_text() -> Seq<u8> {
    seq![100u8, 111u8, 117u8, 98u8, 108u8, 101u8]
}

/// The bytes of `double`.
pub fn double_label_bytes() -> (r: Vec<u8>)
    ensures
        r@ == double_label_text(),
{
    let r: Vec<u8> = vec![100, 111, 117, 98, 108, 101];
    proof {
        assert(r@ =~= double_label_text());
    }
    r
}

/// The text `Invalid command`.
pub open spec fn invalid_command_text() -> Seq<u8> {
    seq![73u8, 110u8, 118u8, 97u8, 108u8, 105u8, 100u8, 32u8, 99u8, 111u8, 109u8, 109u8, 97u8, 110u8, 100u8]
}

/// The bytes of `Invalid command`.
pub fn invalid_command_bytes() -> (r: Vec<u8>)
    ensures
        r@ == invalid_command_text(),
{
    let r: Vec<u8> = vec![73, 110, 118, 97, 108, 105, 100, 32, 99, 111, 109, 109, 97, 110, 100];
    proof {
        assert(r@ =~= invalid_command_text());
    }
    r
}

/// The text `empty command`.
pub open spec fn empty_command_lower_text() -> Seq<u8> {
    seq![101u8, 109u8, 112u8, 116u8, 121u8, 32u8, 99u8, 111u8, 109u8, 109u8, 97u8, 110u8, 100u8]
}

/// The bytes of `empty command`.
pub fn empty_command_lower_bytes() -> (r: Vec<u8>)
    ensures
        r@ == empty_command_lower_text(),
{
    let r: Vec<u8> = vec![101, 109, 112, 116, 121, 32, 99, 111, 109, 109, 97, 110, 100];
    proof {
        assert(r@ =~= empty_command_lower_text());
    }
    r
}

/// The text `Empty command`.
pub open spec fn empty_command_upper_text() -> Seq<u8> {
    seq![69u8, 109u8, 112u8, 116u8, 121u8, 32u8, 99u8, 111u8, 109u8, 109u8, 97u8, 110u8, 100u8]
}

/// The bytes of `Empty command`.
pub fn empty_command_upper_bytes() -> (r: Vec<u8>)
    ensures
        r@ == empty_command_upper_text(),
{
    let r: Vec<u8> = vec![69, 109, 112, 116, 121, 32, 99, 111, 109, 109, 97, 110, 100];
    proof {
        assert(r@ =~= empty_command_upper_text());
    }
    r
}

/// The text `Command args not equal, expect: `.
pub open spec fn args_expect_text() -> Seq<u8> {
    seq![67u8, 111u8, 109u8, 109u8, 97u8, 110u8, 100u8, 32u8, 97u8, 114u8, 103u8, 115u8, 32u8, 110u8, 111u8, 116u8, 32u8, 101u8, 113u8, 117u8, 97u8, 108u8, 44u8, 32u8, 101u8, 120u8, 112u8, 101u8, 99u8, 116u8, 58u8, 32u8]
}

/// The bytes of `Command args not equal, expect: `.
pub fn args_expect_bytes() -> (r: Vec<u8>)
    ensures
        r@ == args_expect_text(),
{
    let r: Vec<u8> = vec![67, 111, 109, 109, 97, 110, 100, 32, 97, 114, 103, 115, 32, 110, 111, 116, 32, 101, 113, 117, 97, 108, 44, 32, 101, 120, 112, 101, 99, 116, 58, 32];
    proof {
        assert(r@ =~= args_expect_text());
    }
    r
}

/// The text `, got: `.
pub open spec fn args_got_text() -> Seq<u8> {
    seq![44u8, 32u8, 103u8, 111u8, 116u8, 58u8, 32u8]
}

/// The bytes of `, got: `.
pub fn args_got_bytes() -> (r: Vec<u8>)
    ensures
        r@ == args_got_text(),
{
    let r: Vec<u8> = vec![44, 32, 103, 111, 116, 58, 32];
    proof {
        assert(r@ =~= args_got_text());
    }
    r
}

/// The text `BulkString is null`.
pub open spec fn bulk_null_text() -> Seq<u8> {
    seq![66u8, 117u8, 108u8, 107u8, 83u8, 116u8, 114u8, 105u8, 110u8, 103u8, 32u8, 105u8, 115u8, 32u8, 110u8, 117u8, 108u8, 108u8]
}

/// The bytes of `BulkString is null`.
pub fn bulk_null_bytes() -> (r: Vec<u8>)
    ensures
        r@ == bulk_null_text(),
{
    let r: Vec<u8> = vec![66, 117, 108, 107, 83, 116, 114, 105, 110, 103, 32, 105, 115, 32, 110, 117, 108, 108];
    proof {
        assert(r@ =~= bulk_null_text());
    }
    r
}

/// The text `Not support to string`.
pub open spec fn not_stringifiable_text() -> Seq<u8> {
    seq![78u8, 111u8, 116u8, 32u8, 115u8, 117u8, 112u8, 112u8, 111u8, 114u8, 116u8, 32u8, 116u8, 111u8, 32u8, 115u8, 116u8, 114u8, 105u8, 110u8, 103u8]
}

/// The bytes of `Not support to string`.
pub fn not_stringifiable_bytes() -> (r: Vec<u8>)
    ensures
        r@ == not_stringifiable_text(),
{
    let r: Vec<u8> = vec![78, 111, 116, 32, 115, 117, 112, 112, 111, 114, 116, 32, 116, 111, 32, 115, 116, 114, 105, 110, 103];
    proof {
        assert(r@ =~= not_stringifiable_text());
    }
    r
}

/// The text `invalid utf-8`.
pub open spec fn invalid_utf8_text() -> Seq<u8> {
    seq![105u8, 110u8, 118u8, 97u8, 108u8, 105u8, 100u8, 32u8, 117u8, 116u8, 102u8, 45u8, 56u8]
}

/// The bytes of `invalid utf-8`.
pub fn invalid_utf8_bytes() -> (r: Vec<u8>)
    ensures
        r@ == invalid_utf8_text(),
{
    let r: Vec<u8> = vec![105, 110, 118, 97, 108, 105, 100, 32, 117, 116, 102, 45, 56];
    proof {
        assert(r@ =~= invalid_utf8_text());
    }
    r
}

/// The text `Invalid argument`.
pub open spec fn invalid_argument_text() -> Seq<u8> {
    seq![73u8, 110u8, 118u8, 97u8, 108u8, 105u8, 100u8, 32u8, 97u8, 114u8, 103u8, 117u8, 109u8, 101u8, 110u8, 116u8]
}

/// The bytes of `Invalid argument`.
pub fn invalid_argument_bytes() -> (r: Vec<u8>)
    ensures
        r@ == invalid_argument_text(),
{
    let r: Vec<u8> = vec![73, 110, 118, 97, 108, 105, 100, 32, 97, 114, 103, 117, 109, 101, 110, 116];
    proof {
        assert(r@ =~= invalid_argument_text());
    }
    r
}

/// The text `Command type not equal`.
pub open spec fn not_equal_command_text() -> Seq<u8> {
    seq![67u8, 111u8, 109u8, 109u8, 97u8, 110u8, 100u8, 32u8, 116u8, 121u8, 112u8, 101u8, 32u8, 110u8, 111u8, 116u8, 32u8, 101u8, 113u8, 117u8, 97u8, 108u8]
}

/// The bytes of `Command type not equal`.
pub fn not_equal_command_bytes() -> (r: Vec<u8>)
    ensures
        r@ == not_equal_command_text(),
{
    let r: Vec<u8> = vec![67, 111, 109, 109, 97, 110, 100, 32, 116, 121, 112, 101, 32, 110, 111, 116, 32, 101, 113, 117, 97, 108];
    proof {
        assert(r@ =~= not_equal_command_text());
    }
    r
}

/// The text `Unexpected error`.
pub open spec fn unexpected_error_text() -> Seq<u8> {
    seq![85u8, 110u8, 101u8, 120u8, 112u8, 101u8, 99u8, 116u8, 101u8, 100u8, 32u8, 101u8, 114u8, 114u8, 111u8, 114u8]
}

/// The bytes of `Unexpected error`.
pub fn unexpected_error_bytes() -> (r: Vec<u8>)
    ensures
        r@ == unexpected_error_text(),
{
    let r: Vec<u8> = vec![85, 110, 101, 120, 112, 101, 99, 116, 101, 100, 32, 101, 114, 114, 111, 114];
    proof {
        assert(r@ =~= unexpected_error_text());
    }
    r
}

/// The text `Invalid type `.
pub open spec fn invalid_type_prefix_text() -> Seq<u8> {
    seq![73u8, 110u8, 118u8, 97u8, 108u8, 105u8, 100u8, 32u8, 116u8, 121u8, 112u8, 101u8, 32u8]
}

/// The bytes of `Invalid type `.
pub fn invalid_type_prefix_bytes() -> (r: Vec<u8>)
    ensures
        r@ == invalid_type_prefix_text(),
{
    let r: Vec<u8> = vec![73, 110, 118, 97, 108, 105, 100, 32, 116, 121, 112, 101, 32];
    proof {
        assert(r@ =~= invalid_type_prefix_text());
    }
    r
}

/// The text `Command Err: `.
pub open spec fn command_err_prefix_text() -> Seq<u8> {
    seq![67u8, 111u8, 109u8, 109u8, 97u8, 110u8, 100u8, 32u8, 69u8, 114u8, 114u8, 58u8, 32u8]
}

/// The bytes of `Command Err: `.
pub fn command_err_prefix_bytes() -> (r: Vec<u8>)
    ensures
        r@ == command_err_prefix_text(),
{
    let r: Vec<u8> = vec![67, 111, 109, 109, 97, 110, 100, 32, 69, 114, 114, 58, 32];
    proof {
        assert(r@ =~= command_err_prefix_text());
    }
    r
}

/// The text `Invalid command `.
pub open spec fn invalid_command_prefix_text() -> Seq<u8> {
    seq![73u8, 110u8, 118u8, 97u8, 108u8, 105u8, 100u8, 32u8, 99u8, 111u8, 109u8, 109u8, 97u8, 110u8, 100u8, 32u8]
}

/// The bytes of `Invalid command `.
pub fn invalid_command_prefix_bytes() -> (r: Vec<u8>)
    ensures
        r@ == invalid_command_prefix_text(),
{
    let r: Vec<u8> = vec![73, 110, 118, 97, 108, 105, 100, 32, 99, 111, 109, 109, 97, 110, 100, 32];
    proof {
        assert(r@ =~= invalid_command_prefix_text());
    }
    r
}

/// The text `OK`.
pub open spec fn ok_text_text() -> Seq<u8> {
    seq![79u8, 75u8]
}

/// The bytes of `OK`.
pub fn ok_text_bytes() -> (r: Vec<u8>)
    ensures
        r@ == ok_text_text(),
{
    let r: Vec<u8> = vec![79, 75];
    proof {
        assert(r@ =~= ok_text_text());
    }
    r
}

/// The text `Can't push to null array`.
pub open spec fn push_null_array_text() -> Seq<u8> {
    seq![67u8, 97u8, 110u8, 39u8, 116u8, 32u8, 112u8, 117u8, 115u8, 104u8, 32u8, 116u8, 111u8, 32u8, 110u8, 117u8, 108u8, 108u8, 32u8, 97u8, 114u8, 114u8, 97u8, 121u8]
}

/// The bytes of `Can't push to null array`.
pub fn push_null_array_bytes() -> (r: Vec<u8>)
    ensures
        r@ == push_null_array_text(),
{
    let r: Vec<u8> = vec![67, 97, 110, 39, 116, 32, 112, 117, 115, 104, 32, 116, 111, 32, 110, 117, 108, 108, 32, 97, 114, 114, 97, 121];
    proof {
        assert(r@ =~= push_null_array_text());
    }
    r
}

/// The text `Invalid simple string`.
pub open spec fn invalid_simple_text_text() -> Seq<u8> {
    seq![73u8, 110u8, 118u8, 97u8, 108u8, 105u8, 100u8, 32u8, 115u8, 105u8, 109u8, 112u8, 108u8, 101u8, 32u8, 115u8, 116u8, 114u8, 105u8, 110u8, 103u8]
}

/// The bytes of `Invalid simple string`.
pub fn invalid_simple_text_bytes() -> (r: Vec<u8>)
    ensures
        r@ == invalid_simple_text_text(),
{
    let r: Vec<u8> = vec![73, 110, 118, 97, 108, 105, 100, 32, 115, 105, 109, 112, 108, 101, 32, 115, 116, 114, 105, 110, 103];
    proof {
        assert(r@ =~= invalid_simple_text_text());
    }
    r
}

/// The verb `get`.
pub open spec fn verb_get_text() -> Seq<u8> {
    seq![103u8, 101u8, 116u8]
}

/// The bytes of the verb `get`.
pub fn verb_get_bytes() -> (r: Vec<u8>)
    ensures
        r@ == verb_get_text(),
{
    let r: Vec<u8> = vec![103, 101, 116];
    proof {
        assert(r@ =~= verb_get_text());
    }
    r
}

/// The verb `set`.
pub open spec fn verb_set_text() -> Seq<u8> {
    seq![115u8, 101u8, 116u8]
}

/// The bytes of the verb `set`.
pub fn verb_set_bytes() -> (r: Vec<u8>)
    ensures
        r@ == verb_set_text(),
{
    let r: Vec<u8> = vec![115, 101, 116];
    proof {
        assert(r@ =~= verb_set_text());
    }
    r
}

/// The verb `hget`.
pub open spec fn verb_hget_text() -> Seq<u8> {
    seq![104u8, 103u8, 101u8, 116u8]
}

/// The bytes of the verb `hget`.
pub fn verb_hget_bytes() -> (r: Vec<u8>)
    ensures
        r@ == verb_hget_text(),
{
    let r: Vec<u8> = vec![104, 103, 101, 116];
    proof {
        assert(r@ =~= verb_hget_text());
    }
    r
}

/// The verb `hset`.
pub open spec fn verb_hset_text() -> Seq<u8> {
    seq![104u8, 115u8, 101u8, 116u8]
}

/// The bytes of the verb `hset`.
pub fn verb_hset_bytes() -> (r: Vec<u8>)
    ensures
        r@ == verb_hset_text(),
{
    let r: Vec<u8> = vec![104, 115, 101, 116];
    proof {
        assert(r@ =~= verb_hset_text());
    }
    r
}

/// The verb `hmget`.
pub open spec fn verb_hmget_text() -> Seq<u8> {
    seq![104u8, 109u8, 103u8, 101u8, 116u8]
}

/// The bytes of the verb `hmget`.
pub fn verb_hmget_bytes() -> (r: Vec<u8>)
    ensures
        r@ == verb_hmget_text(),
{
    let r: Vec<u8> = vec![104, 109, 103, 101, 116];
    proof {
        assert(r@ =~= verb_hmget_text());
    }
    r
}

/// The verb `sadd`.
pub open spec fn verb_sadd_text() -> Seq<u8> {
    seq![115u8, 97u8, 100u8, 100u8]
}

/// The bytes of the verb `sadd`.
pub fn verb_sadd_bytes() -> (r: Vec<u8>)
    ensures
        r@ == verb_sadd_text(),
{
    let r: Vec<u8> = vec![115, 97, 100, 100];
    proof {
        assert(r@ =~= verb_sadd_text());
    }
    r
}

/// The verb `sismember`.
pub open spec fn verb_sismember_text() -> Seq<u8> {
    seq![115u8, 105u8, 115u8, 109u8, 101u8, 109u8, 98u8, 101u8, 114u8]
}

/// The bytes of the verb `sismember`.
pub fn verb_sismember_bytes() -> (r: Vec<u8>)
    ensures
        r@ == verb_sismember_text(),
{
    let r: Vec<u8> = vec![115, 105, 115, 109, 101, 109, 98, 101, 114];
    proof {
        assert(r@ =~= verb_sismember_text());
    }
    r
}

/// The verb `echo`.
pub open spec fn verb_echo_text() -> Seq<u8> {
    seq![101u8, 99u8, 104u8, 111u8]
}

/// The bytes of the verb `echo`.
pub fn verb_echo_bytes() -> (r: Vec<u8>)
    ensures
        r@ == verb_echo_text(),
{
    let r: Vec<u8> = vec![101, 99, 104, 111];
    proof {
        assert(r@ =~= verb_echo_text());
    }
    r
}

/// None of the fixed texts holds CR or LF.
pub proof fn lemma_texts_clean()
    ensures
        clean_text(invalid_length_text()),
        clean_text(invalid_bool_text()),
        clean_text(invalid_null_text()),
        clean_text(map_key_kind_text()),
        clean_text(unsupported_prefix_text()),
        clean_text(array_label_text()),
        clean_text(i64_label_text()),
        clean_text(double_label_text()),
        clean_text(invalid_command_text()),
        clean_text(empty_command_lower_text()),
        clean_text(empty_command_upper_text()),
        clean_text(args_expect_text()),
        clean_text(args_got_text()),
        clean_text(bulk_null_text()),
        clean_text(not_stringifiable_text()),
        clean_text(invalid_utf8_text()),
        clean_text(invalid_argument_text()),
        clean_text(not_equal_command_text()),
        clean_text(unexpected_error_text()),
        clean_text(invalid_type_prefix_text()),
        clean_text(command_err_prefix_text()),
        clean_text(invalid_command_prefix_text()),
        clean_text(ok_text_text()),
        clean_text(invalid_simple_text_text()),
        clean_text(push_null_array_text()),
{
}

} // verus!