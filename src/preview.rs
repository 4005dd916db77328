//! A short hexadecimal rendering of octet strings, for traces.
use vstd::prelude::*;
use vstd::string::StringExecFns;

verus! {

pub open spec fn hex_digit(d: nat) -> char {
    seq!['0', '1', '2', '3', '4', '5', '6', '7', '8', '9', 'a', 'b', 'c', 'd', 'e', 'f'][d as int]
}

/// Two lower-case hexadecimal digits of an octet.
pub open spec fn octet_hex(b: u8) -> Seq<char> {
    seq![hex_digit(b as nat / 16), hex_digit(b as nat % 16)]
}

/// The octets in hexadecimal, separated by single spaces.
pub open spec fn hex_join(bytes: Seq<u8>) -> Seq<char>
    decreases bytes.len(),
{
    if bytes.len() == 0 {
        Seq::empty()
    } else if bytes.len() == 1 {
        octet_hex(bytes[0])
    } else {
        hex_join(bytes.drop_last()) + seq![' '] + octet_hex(bytes.last())
    }
}

/// The decimal digits of `n`.
pub open spec fn decimal(n: nat) -> Seq<char>
    decreases n,
{
    if n < 10 {
        seq![hex_digit(n)]
    } else {
        decimal(n / 10) + seq![hex_digit(n % 10)]
    }
}

/// What `hex_preview` shows: `(empty)`, or the first `max_bytes` octets in
/// hexadecimal followed by the total count.
pub open spec fn preview(data: Seq<u8>, max_bytes: nat) -> Seq<char> {
    if data.len() == 0 {
        "(empty)"@
    } else if data.len() > max_bytes {
        hex_join(data.take(max_bytes as int)) + " ... ("@ + decimal(data.len()) + " bytes total)"@
    } else {
        hex_join(data) + " ("@ + decimal(data.len()) + " bytes)"@
    }
}

fn digit_str(d: u8) -> (r: &'static str)
    requires
        d < 16,
    ensures
        r@ == seq![hex_digit(d as nat)],
{
    match d {
        0 => {
            proof {
                reveal_strlit("0");
            }
            "0"
        },
        1 => {
            proof {
                reveal_strlit("1");
            }
            "1"
        },
        2 => {
            proof {
                reveal_strlit("2");
            }
            "2"
        },
        3 => {
            proof {
                reveal_strlit("3");
            }
            "3"
        },
        4 => {
            proof {
                reveal_strlit("4");
            }
            "4"
        },
        5 => {
            proof {
                reveal_strlit("5");
            }
            "5"
        },
        6 => {
            proof {
                reveal_strlit("6");
            }
            "6"
        },
        7 => {
            proof {
                reveal_strlit("7");
            }
            "7"
        },
        8 => {
            proof {
                reveal_strlit("8");
            }
            "8"
        },
        9 => {
            proof {
                reveal_strlit("9");
            }
            "9"
        },
        10 => {
            proof {
                reveal_strlit("a");
            }
            "a"
        },
        11 => {
            proof {
                reveal_strlit("b");
            }
            "b"
        },
        12 => {
            proof {
                reveal_strlit("c");
            }
            "c"
        },
        13 => {
            proof {
                reveal_strlit("d");
            }
            "d"
        },
        14 => {
            proof {
                reveal_strlit("e");
            }
            "e"
        },
        15 => {
            proof {
                reveal_strlit("f");
            }
            "f"
        },
        _ => {
            proof {
                reveal_strlit("f");
            }
            "f"
        },
    }
}

fn push_decimal(s: &mut String, n: usize)
    ensures
        final(s)@ == old(s)@ + decimal(n as nat),
    decreases n,
{
    if n >= 10 {
        push_decimal(s, n / 10);
    }
    s.append(digit_str((n % 10) as u8));
    proof {
        if n < 10 {
            assert(final(s)@ =~= old(s)@ + decimal(n as nat));
        } else {
            assert(final(s)@ =~= old(s)@ + decimal(n as nat));
        }
    }
}

fn push_octet(s: &mut String, b: u8)
    ensures
        final(s)@ == old(s)@ + octet_hex(b),
{
    s.append(digit_str(b / 16));
    s.append(digit_str(b % 16));
    proof {
        assert(final(s)@ =~= old(s)@ + octet_hex(b));
    }
}

/// The first `max_bytes` octets of `data` in hexadecimal, separated by
/// spaces, then the number of octets: `"0a 0b (2 bytes)"`,
/// `"0a ... (2 bytes total)"` when cut, `"(empty)"` for no octets.
pub fn hex_preview(data: &Vec<u8>, max_bytes: usize) -> (r: String)
    ensures
        r@ == preview(data@, max_bytes as nat),
{
    if data.len() == 0 {
        proof {
            reveal_strlit("(empty)");
        }
        return String::from_str("(empty)");
    }
    let n = if data.len() < max_bytes {
        data.len()
    } else {
        max_bytes
    };
    let mut s = String::new();
    let mut i: usize = 0;
    while i < n
        invariant
            i <= n <= data.len(),
            s@ == hex_join(data@.take(i as int)),
        decreases n - i,
    {
        proof {
            assert(data@.take(i + 1).drop_last() =~= data@.take(i as int));
        }
        if i > 0 {
            s.append(" ");
            proof {
                reveal_strlit(" ");
            }
        }
        push_octet(&mut s, data[i]);
        proof {
            if i == 0 {
                assert(s@ =~= hex_join(data@.take(1)));
            } else {
                assert(s@ =~= hex_join(data@.take(i + 1)));
            }
        }
        i = i + 1;
    }
    if data.len() > max_bytes {
        s.append(" ... (");
        push_decimal(&mut s, data.len());
        s.append(" bytes total)");
        proof {
            reveal_strlit(" ... (");
            reveal_strlit(" bytes total)");
        }
    } else {
        s.append(" (");
        push_decimal(&mut s, data.len());
        s.append(" bytes)");
        proof {
            reveal_strlit(" (");
            reveal_strlit(" bytes)");
            assert(data@.take(n as int) =~= data@);
        }
    }
    s
}

} // verus!
