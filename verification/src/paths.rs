//! Fully qualified mount paths for a store's partition.

use vstd::prelude::*;
use vstd::string::StringExecFns;
use crate::config::IKVStoreConfig;
use crate::error::IndexError;

verus! {

/// The decimal digit character for `d`.
pub open spec fn spec_digit_char(d: int) -> char {
    ((0x30 + d) as u8) as char
}

/// The decimal rendering of a non-negative number.
pub open spec fn spec_dec_chars(n: int) -> Seq<char>
    decreases n,
{
    if n < 10 {
        seq![spec_digit_char(n)]
    } else {
        spec_dec_chars(n / 10) + seq![spec_digit_char(n % 10)]
    }
}

/// The decimal rendering of a partition number, sign included.
pub open spec fn spec_dec_chars_i64(n: i64) -> Seq<char> {
    if n >= 0 {
        spec_dec_chars(n as int)
    } else {
        seq!['-'] + spec_dec_chars(-(n as int))
    }
}

fn digit_str(d: u64) -> (r: &'static str)
    requires
        d < 10,
    ensures
        r@ == seq![spec_digit_char(d as int)],
{
    let r: &'static str = match d {
        0 => "0",
        1 => "1",
        2 => "2",
        3 => "3",
        4 => "4",
        5 => "5",
        6 => "6",
        7 => "7",
        8 => "8",
        _ => "9",
    };
    proof {
        reveal_strlit("0");
        reveal_strlit("1");
        reveal_strlit("2");
        reveal_strlit("3");
        reveal_strlit("4");
        reveal_strlit("5");
        reveal_strlit("6");
        reveal_strlit("7");
        reveal_strlit("8");
        reveal_strlit("9");
        assert(r@ =~= seq![spec_digit_char(d as int)]);
    }
    r
}

/// Render a non-negative number in decimal.
pub fn dec_string(n: u64) -> (r: String)
    ensures
        r@ == spec_dec_chars(n as int),
    decreases n,
{
    if n < 10 {
        String::from_str(digit_str(n))
    } else {
        let high = dec_string(n / 10);
        let r = high.concat(digit_str(n % 10));
        proof {
            assert(r@ =~= spec_dec_chars(n as int));
        }
        r
    }
}

/// Render a partition number in decimal, sign included.
pub fn dec_string_i64(n: i64) -> (r: String)
    ensures
        r@ == spec_dec_chars_i64(n),
{
    if n >= 0 {
        dec_string(n as u64)
    } else {
        let m: u64 = if n == i64::MIN {
            9223372036854775808u64
        } else {
            (-n) as u64
        };
        proof {
            assert(m as int == -(n as int));
        }
        let r = String::from_str("-").concat(dec_string(m).as_str());
        proof {
            reveal_strlit("-");
            assert(r@ =~= spec_dec_chars_i64(n));
        }
        r
    }
}

/// The path under which the partition's index is mounted:
/// `<mount_directory>/<store_name>/<partition>`.
pub open spec fn spec_index_mount_fqn(mount: Seq<char>, store: Seq<char>, partition: i64) -> Seq<
    char,
> {
    mount + seq!['/'] + store + seq!['/'] + spec_dec_chars_i64(partition)
}

/// Construct the index mount path from the configuration; each of the
/// three settings is required.
pub fn get_index_mount_directory_fqn(config: &IKVStoreConfig) -> (r: Result<String, IndexError>)
    requires
        config.wf(),
    ensures
        match r {
            Ok(p) => {
                &&& config.string_configs@.contains_key("mount_directory"@)
                &&& config.string_configs@.contains_key("store_name"@)
                &&& config.int_configs@.contains_key("partition"@)
                &&& p@ == spec_index_mount_fqn(
                    config.string_configs@["mount_directory"@]@,
                    config.string_configs@["store_name"@]@,
                    config.int_configs@["partition"@],
                )
            },
            Err(e) => {
                ||| !config.string_configs@.contains_key("mount_directory"@)
                ||| !config.string_configs@.contains_key("store_name"@)
                ||| !config.int_configs@.contains_key("partition"@)
            },
        },
{
    let mount = match config.get_string("mount_directory") {
        None => {
            return Err(
                IndexError::IllegalArguments(
                    String::from_str("mount_directory is a required client-specified config"),
                ),
            );
        },
        Some(m) => m,
    };
    let store = match config.get_string("store_name") {
        None => {
            return Err(
                IndexError::IllegalArguments(
                    String::from_str("store_name is a required client-specified config"),
                ),
            );
        },
        Some(sn) => sn,
    };
    let partition = match config.get_int("partition") {
        None => {
            return Err(
                IndexError::IllegalArguments(
                    String::from_str("partition is a required client-specified config"),
                ),
            );
        },
        Some(p) => *p,
    };
    let mut out = String::from_str(mount.as_str());
    out.append("/");
    out.append(store.as_str());
    out.append("/");
    let dec = dec_string_i64(partition);
    out.append(dec.as_str());
    proof {
        reveal_strlit("/");
        assert(out@ =~= spec_index_mount_fqn(mount@, store@, partition));
    }
    Ok(out)
}

/// The working path used by offline builds:
/// `<mount_directory>/working_dir/<store_name>/<partition>`.
pub open spec fn spec_working_mount_fqn(mount: Seq<char>, store: Seq<char>, partition: i64) -> Seq<
    char,
> {
    mount + "/working_dir/"@ + store + seq!['/'] + spec_dec_chars_i64(partition)
}

/// Construct the working mount path from the configuration; each of the
/// three settings is required.
pub fn get_working_mount_directory_fqn(config: &IKVStoreConfig) -> (r: Result<String, IndexError>)
    requires
        config.wf(),
    ensures
        match r {
            Ok(p) => {
                &&& config.string_configs@.contains_key("mount_directory"@)
                &&& config.string_configs@.contains_key("store_name"@)
                &&& config.int_configs@.contains_key("partition"@)
                &&& p@ == spec_working_mount_fqn(
                    config.string_configs@["mount_directory"@]@,
                    config.string_configs@["store_name"@]@,
                    config.int_configs@["partition"@],
                )
            },
            Err(e) => {
                ||| !config.string_configs@.contains_key("mount_directory"@)
                ||| !config.string_configs@.contains_key("store_name"@)
                ||| !config.int_configs@.contains_key("partition"@)
            },
        },
{
    let mount = match config.get_string("mount_directory") {
        None => {
            return Err(
                IndexError::IllegalArguments(
                    String::from_str("mount_directory is a required client-specified config"),
                ),
            );
        },
        Some(m) => m,
    };
    let store = match config.get_string("store_name") {
        None => {
            return Err(
                IndexError::IllegalArguments(
                    String::from_str("store_name is a required client-specified config"),
                ),
            );
        },
        Some(sn) => sn,
    };
    let partition = match config.get_int("partition") {
        None => {
            return Err(
                IndexError::IllegalArguments(
                    String::from_str("partition is a required client-specified config"),
                ),
            );
        },
        Some(p) => *p,
    };
    let mut out = String::from_str(mount.as_str());
    out.append("/working_dir/");
    out.append(store.as_str());
    out.append("/");
    let dec = dec_string_i64(partition);
    out.append(dec.as_str());
    proof {
        reveal_strlit("/working_dir/");
        reveal_strlit("/");
        assert(out@ =~= spec_working_mount_fqn(mount@, store@, partition));
    }
    Ok(out)
}

} // verus!
