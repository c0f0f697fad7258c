//! Headers in messages.

use vstd::prelude::*;
use vstd::string::StringExecFns;

use crate::format::{item_type_name, Header};

verus! {

/// A hexadecimal digit.
pub open spec fn hex_digit(d: u64) -> char {
    if d < 10 {
        ('0' as u64 + d) as char
    } else {
        ('a' as u64 + (d - 10)) as char
    }
}

/// A number in hexadecimal digits, without leading zeros.
pub open spec fn hex(n: u64) -> Seq<char>
    decreases n,
{
    if n < 16 {
        seq![hex_digit(n)]
    } else {
        hex(n / 16).push(hex_digit(n % 16))
    }
}

/// A header in messages: the name of its type, and its number.
pub open spec fn header_text(htype: u64) -> Seq<char> {
    item_type_name(htype) + " header ("@ + hex(htype) + ")"@
}

/// Get a hexadecimal digit.
fn digit(d: u64) -> (r: &'static str)
    requires
        d < 16,
    ensures
        r@ == seq![hex_digit(d)],
{
    proof {
        reveal_strlit("0");
        reveal_strlit("1");
        reveal_strlit("2");
        reveal_strlit("3");
        reveal_strlit("4");
        reveal_strlit("5");
        reveal_strlit("6");
        reveal_strlit("7");
        reveal_strlit("8");
        reveal_strlit("9");
        reveal_strlit("a");
        reveal_strlit("b");
        reveal_strlit("c");
        reveal_strlit("d");
        reveal_strlit("e");
        reveal_strlit("f");
    }
    let r: &'static str = match d {
        0 => "0",
        1 => "1",
        2 => "2",
        3 => "3",
        4 => "4",
        5 => "5",
        6 => "6",
        7 => "7",
        8 => "8",
        9 => "9",
        10 => "a",
        11 => "b",
        12 => "c",
        13 => "d",
        14 => "e",
        _ => "f",
    };
    proof {
        assert(r@ =~= seq![hex_digit(d)]);
    }
    r
}

/// Append a number in hexadecimal digits.
fn append_hex(out: &mut String, n: u64)
    ensures
        final(out)@ == old(out)@ + hex(n),
    decreases n,
{
    let ghost before = out@;
    if n >= 16 {
        append_hex(out, n / 16);
        proof {
            assert(before + hex(n / 16) + seq![hex_digit(n % 16)] =~= before + hex(n));
        }
    }
    out.append(digit(n % 16));
}

impl Header {
    /// Get a text for messages.
    pub fn text(&self) -> (r: String)
        ensures
            r@ == header_text(self.htype),
    {
        let mut r: String = String::from_str(self.readable());
        r.append(" header (");
        append_hex(&mut r, self.htype);
        r.append(")");
        r
    }
}

/// The value of a hexadecimal digit.
pub open spec fn digit_value(c: char) -> int {
    if '0' <= c <= '9' {
        c as int - '0' as int
    } else {
        c as int - 'a' as int + 10
    }
}

/// The number that some hexadecimal digits stand for.
pub open spec fn hex_value(digits: Seq<char>) -> int
    decreases digits.len(),
{
    if digits.len() == 0 {
        0
    } else {
        hex_value(digits.drop_last()) * 16 + digit_value(digits.last())
    }
}

/// Hexadecimal digits stand for the number that was written, and there are no more of them than
/// needed.
pub proof fn law_hex(n: u64)
    ensures
        hex_value(hex(n)) == n,
        hex(n).len() > 0,
        hex(n)[0] == '0' ==> n == 0 && hex(n).len() == 1,
        forall|i: int|
            0 <= i < hex(n).len() ==> '0' <= #[trigger] hex(n)[i] <= '9' || 'a' <= hex(n)[i] <= 'f',
    decreases n,
{
    if n < 16 {
        assert(hex(n).drop_last() =~= Seq::<char>::empty());
        assert(hex_value(Seq::<char>::empty()) == 0);
    } else {
        law_hex(n / 16);
        assert(hex(n).drop_last() =~= hex(n / 16));
        assert(hex(n)[0] == hex(n / 16)[0]);
    }
}

/// A header in messages starts with the name of its type, and its number follows in brackets.
pub proof fn law_header_text(htype: u64)
    ensures
        header_text(htype) == item_type_name(htype) + (" header ("@ + (hex(htype) + ")"@)),
        htype == 0x16701121063917b3 ==> item_type_name(htype) == "FILENAME"@,
        htype == 0x27f971e7dbf5dc5f ==> item_type_name(htype) == "SYMLINK"@,
        htype == 0x51269c8422bd7275 ==> item_type_name(htype) == "HARDLINK"@,
        htype == 0x9fc9e906586d5ce9 ==> item_type_name(htype) == "DEVICE"@,
        htype == 0x0dab0229b57dcd03 ==> item_type_name(htype) == "XATTR"@,
        htype == 0x2da9dd9db5f7fb67 ==> item_type_name(htype) == "FCAPS"@,
        htype == 0x2ce8540a457d55b8 ==> item_type_name(htype) == "ACL_USER"@,
        htype == 0xc89357b40532cd1f ==> item_type_name(htype) == "ACL_DEFAULT_USER"@,
        htype == 0x136e3eceb04c03ab ==> item_type_name(htype) == "ACL_GROUP"@,
        htype == 0xf90a8a5816038ffe ==> item_type_name(htype) == "ACL_DEFAULT_GROUP"@,
        htype == 0xbbbb13415a6896f5 ==> item_type_name(htype) == "ACL_DEFAULT"@,
        htype == 0x10868031e9582876 ==> item_type_name(htype) == "ACL_GROUP_OBJ"@,
        htype == 0xe07540e82f7d1cbb ==> item_type_name(htype) == "QUOTA_PROJID"@,
        htype == 0xd5956474e588acef ==> item_type_name(htype) == "ENTRY"@,
        htype == 0x11da850a1c1cceff ==> item_type_name(htype) == "ENTRY"@,
        htype == 0x28147a1b0b7c1a25 ==> item_type_name(htype) == "PAYLOAD"@,
        htype == 0x2fec4fa642d5731d ==> item_type_name(htype) == "GOODBYE"@,
        htype == 0x419d3d6bc4ba977e || htype == 0x730f6c75df16a40d || htype == 0xe309d79d9f7b771b
            || htype == 0x834c68c2194a4ed2 || htype == 0x6c72b78b984c81b5 || htype
            == 0xef5eed5b753e1555 || htype < 0x0dab0229b57dcd03 ==> item_type_name(htype)
            == "UNKNOWN"@,
{
    assert(header_text(htype) =~= item_type_name(htype) + (" header ("@ + (hex(htype) + ")"@)));
}

} // verus!
