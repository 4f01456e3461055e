//! Firmware images shipped with the tool, and their display names.
//!
//! A shipped image file is named like `PicoROM-2MBit_100ns-1_7.bin`:
//! the fixed prefix, the hardware variant, and a version with
//! underscores for dots.  The display name drops the prefix and the
//! extension and shows the variant with a dotted version, as in
//! `2MBit_100ns v1.7`.  A file name in any other shape is shown as it
//! is.

use vstd::prelude::*;
use vstd::string::*;

verus! {

/// One shipped firmware image: its display name and its raw bytes.
pub struct EmbeddedFirmware {
    pub display_name: String,
    pub data: Vec<u8>,
}

/// Underscores replaced by dots.
pub open spec fn spec_replace_dots(t: Seq<char>) -> Seq<char> {
    t.map_values(|c: char| if c == '_' { '.' } else { c })
}

/// The display name of a firmware file name: for
/// `PicoROM-<variant>-<version>.bin`, the variant and the dotted
/// version; anything else unchanged.
pub open spec fn spec_firmware_display(s: Seq<char>) -> Seq<char> {
    let base = if s.len() >= 4 && s.skip(s.len() - 4) == ".bin"@ {
        s.take(s.len() - 4)
    } else {
        s
    };
    match base.index_of_first('-') {
        Some(d1) => match base.index_of_last('-') {
            Some(d2) => {
                if d1 != d2 && base.take(d1) == "PicoROM"@ {
                    base.subrange(d1 + 1, d2) + " v"@ + spec_replace_dots(base.skip(d2 + 1))
                } else {
                    s
                }
            },
            None => s,
        },
        None => s,
    }
}

/// First occurrence of a character before an index.
fn find_char_before(s: &str, c: char, end: usize) -> (r: Option<usize>)
    requires
        end <= s@.len(),
    ensures
        match r {
            Some(i) => 0 <= i < end && s@[i as int] == c && forall|j: int|
                0 <= j < i ==> s@[j] != c,
            None => forall|j: int| 0 <= j < end ==> s@[j] != c,
        },
{
    let mut i: usize = 0;
    while i < end
        invariant
            end <= s@.len(),
            0 <= i <= end,
            forall|j: int| 0 <= j < i ==> s@[j] != c,
        decreases end - i,
    {
        if s.get_char(i) == c {
            return Some(i);
        }
        i = i + 1;
    }
    None
}

/// Last occurrence of a character before an index.
fn rfind_char_before(s: &str, c: char, end: usize) -> (r: Option<usize>)
    requires
        end <= s@.len(),
    ensures
        match r {
            Some(i) => 0 <= i < end && s@[i as int] == c && forall|j: int|
                i < j < end ==> s@[j] != c,
            None => forall|j: int| 0 <= j < end ==> s@[j] != c,
        },
{
    let mut i: usize = end;
    while i > 0
        invariant
            end <= s@.len(),
            0 <= i <= end,
            forall|j: int| i <= j < end ==> s@[j] != c,
        decreases i,
    {
        i = i - 1;
        if s.get_char(i) == c {
            return Some(i);
        }
    }
    None
}

/// The display name of one firmware file name, per
/// [`spec_firmware_display`].
pub fn parse_firmware_name(filename: &str) -> (r: String)
    ensures
        r@ == spec_firmware_display(filename@),
{
    proof {
        reveal_strlit(".bin");
        reveal_strlit("PicoROM");
        reveal_strlit(" v");
        reveal_strlit(".");
    }
    let n = filename.unicode_len();
    let has_suffix = n >= 4 && filename.get_char(n - 4) == '.' && filename.get_char(n - 3) == 'b'
        && filename.get_char(n - 2) == 'i' && filename.get_char(n - 1) == 'n';
    proof {
        if n >= 4 {
            if has_suffix {
                assert(filename@.skip(n as int - 4) =~= ".bin"@);
            } else {
                if filename@.skip(n as int - 4) == ".bin"@ {
                    assert(filename@.skip(n as int - 4)[0] == filename@[n as int - 4]);
                    assert(filename@.skip(n as int - 4)[1] == filename@[n as int - 3]);
                    assert(filename@.skip(n as int - 4)[2] == filename@[n as int - 2]);
                    assert(filename@.skip(n as int - 4)[3] == filename@[n as int - 1]);
                    assert(false);
                }
            }
        }
    }
    let base_end = if has_suffix {
        n - 4
    } else {
        n
    };
    let ghost base = if has_suffix {
        filename@.take(n as int - 4)
    } else {
        filename@
    };
    proof {
        assert(base =~= filename@.take(base_end as int));
        assert(base.len() == base_end);
        assert(forall|j: int| 0 <= j < base_end ==> base[j] == filename@[j]);
        base.index_of_first_ensures('-');
        base.index_of_last_ensures('-');
    }
    let d1_opt = find_char_before(filename, '-', base_end);
    let d2_opt = rfind_char_before(filename, '-', base_end);
    let (d1, d2): (usize, usize) = match (d1_opt, d2_opt) {
        (Some(d1), Some(d2)) => (d1, d2),
        _ => {
            proof {
                assert(!base.contains('-')) by {
                    if base.contains('-') {
                        let j = choose|j: int| 0 <= j < base.len() && base[j] == '-';
                        assert(filename@[j] == '-');
                    }
                }
            }
            return String::from_str(filename);
        }
    };
    proof {
        assert(base[d1 as int] == '-');
        assert(base.contains('-'));
        assert(base.index_of_first('-') == Some(d1 as int)) by {
            let k = base.index_of_first('-').unwrap();
            if k < d1 as int {
                assert(filename@[k] == '-');
            }
            if k > d1 as int {
                assert(base[d1 as int] != '-');
            }
        }
        assert(base.index_of_last('-') == Some(d2 as int)) by {
            let k = base.index_of_last('-').unwrap();
            if k > d2 as int {
                assert(filename@[k] == '-');
            }
            if k < d2 as int {
                assert(base[d2 as int] != '-');
            }
        }
    }
    let prefix_ok = d1 == 7 && filename.get_char(0) == 'P' && filename.get_char(1) == 'i'
        && filename.get_char(2) == 'c' && filename.get_char(3) == 'o' && filename.get_char(4)
        == 'R' && filename.get_char(5) == 'O' && filename.get_char(6) == 'M';
    proof {
        if prefix_ok {
            assert(base.take(d1 as int) =~= "PicoROM"@);
        } else {
            if base.take(d1 as int) == "PicoROM"@ {
                assert(base.take(d1 as int).len() == 7);
                assert(d1 == 7);
                assert(base.take(7)[0] == filename@[0]);
                assert(base.take(7)[1] == filename@[1]);
                assert(base.take(7)[2] == filename@[2]);
                assert(base.take(7)[3] == filename@[3]);
                assert(base.take(7)[4] == filename@[4]);
                assert(base.take(7)[5] == filename@[5]);
                assert(base.take(7)[6] == filename@[6]);
                assert(false);
            }
        }
    }
    if d1 == d2 || !prefix_ok {
        return String::from_str(filename);
    }
    let mut out = String::from_str(filename.substring_char(d1 + 1, d2));
    proof {
        assert(out@ =~= base.subrange(d1 as int + 1, d2 as int));
    }
    out.append(" v");
    let ghost head = base.subrange(d1 as int + 1, d2 as int) + " v"@;
    let mut k = d2 + 1;
    while k < base_end
        invariant
            d2 as int + 1 <= k as int <= base_end as int,
            base_end <= n,
            n == filename@.len(),
            base == filename@.take(base_end as int),
            out@ == head + spec_replace_dots(filename@.subrange(d2 as int + 1, k as int)),
        decreases base_end - k,
    {
        proof {
            reveal_strlit(".");
        }
        let c = filename.get_char(k);
        if c == '_' {
            out.append(".");
        } else {
            out.append(filename.substring_char(k, k + 1));
        }
        proof {
            let prev = filename@.subrange(d2 as int + 1, k as int);
            let cur = filename@.subrange(d2 as int + 1, k as int + 1);
            assert(cur =~= prev.push(filename@[k as int]));
            assert(spec_replace_dots(cur) =~= spec_replace_dots(prev).push(
                if filename@[k as int] == '_' {
                    '.'
                } else {
                    filename@[k as int]
                },
            ));
            assert(filename@.subrange(k as int, k as int + 1) =~= seq![filename@[k as int]]);
            assert(out@ =~= head + spec_replace_dots(cur));
        }
        k = k + 1;
    }
    proof {
        assert(base.skip(d2 as int + 1) =~= filename@.subrange(d2 as int + 1, base_end as int));
        assert(out@ == head + spec_replace_dots(base.skip(d2 as int + 1)));
    }
    out
}

} // verus!
