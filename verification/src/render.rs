//! Rendering of comparison records: one line per completed correlation
//! record, `<key>: <source> +<delta>ms, ...`, sources in declared order —
//! never sorted by delta magnitude.

use vstd::prelude::*;
use vstd::string::StringExecFns;

verus! {

/// The character for decimal digit `d`.
pub open spec fn digit_char(d: nat) -> char {
    if d == 0 {
        '0'
    } else if d == 1 {
        '1'
    } else if d == 2 {
        '2'
    } else if d == 3 {
        '3'
    } else if d == 4 {
        '4'
    } else if d == 5 {
        '5'
    } else if d == 6 {
        '6'
    } else if d == 7 {
        '7'
    } else if d == 8 {
        '8'
    } else {
        '9'
    }
}

/// The decimal digits of `n`, most significant first.
pub open spec fn dec_digits(n: nat) -> Seq<char>
    decreases n,
{
    if n < 10 {
        seq![digit_char(n)]
    } else {
        dec_digits(n / 10).push(digit_char(n % 10))
    }
}

fn digit_str(d: u64) -> (s: &'static str)
    requires
        d < 10,
    ensures
        s@ == seq![digit_char(d as nat)],
{
    match d {
        0 => {
            proof {
                reveal_strlit("0");
                assert("0"@ =~= seq![digit_char(0)]);
            }
            "0"
        },
        1 => {
            proof {
                reveal_strlit("1");
                assert("1"@ =~= seq![digit_char(1)]);
            }
            "1"
        },
        2 => {
            proof {
                reveal_strlit("2");
                assert("2"@ =~= seq![digit_char(2)]);
            }
            "2"
        },
        3 => {
            proof {
                reveal_strlit("3");
                assert("3"@ =~= seq![digit_char(3)]);
            }
            "3"
        },
        4 => {
            proof {
                reveal_strlit("4");
                assert("4"@ =~= seq![digit_char(4)]);
            }
            "4"
        },
        5 => {
            proof {
                reveal_strlit("5");
                assert("5"@ =~= seq![digit_char(5)]);
            }
            "5"
        },
        6 => {
            proof {
                reveal_strlit("6");
                assert("6"@ =~= seq![digit_char(6)]);
            }
            "6"
        },
        7 => {
            proof {
                reveal_strlit("7");
                assert("7"@ =~= seq![digit_char(7)]);
            }
            "7"
        },
        8 => {
            proof {
                reveal_strlit("8");
                assert("8"@ =~= seq![digit_char(8)]);
            }
            "8"
        },
        _ => {
            proof {
                reveal_strlit("9");
                assert("9"@ =~= seq![digit_char(9)]);
            }
            "9"
        },
    }
}

/// Render `n` in decimal.
pub fn u64_to_dec(n: u64) -> (s: String)
    ensures
        s@ == dec_digits(n as nat),
    decreases n,
{
    if n < 10 {
        digit_str(n).to_owned()
    } else {
        let front = u64_to_dec(n / 10);
        let s = front.concat(digit_str(n % 10));
        proof {
            assert(s@ =~= dec_digits(n as nat));
        }
        s
    }
}

/// The rendered comparison entries for the first `i` sources:
/// `name +deltams`, comma-separated.
pub open spec fn entries_upto(names: Seq<Seq<char>>, deltas: Seq<u64>, i: int) -> Seq<char>
    decreases i,
{
    if i <= 0 {
        Seq::empty()
    } else {
        let sep: Seq<char> = if i == 1 {
            Seq::empty()
        } else {
            ", "@
        };
        entries_upto(names, deltas, i - 1) + sep + names[i - 1] + " +"@ + dec_digits(
            deltas[i - 1] as nat,
        ) + "ms"@
    }
}

/// One comparison line: the key, then every source's delta in declared
/// order.
pub open spec fn comparison_line(key: u64, names: Seq<Seq<char>>, deltas: Seq<u64>) -> Seq<char> {
    dec_digits(key as nat) + ": "@ + entries_upto(names, deltas, deltas.len() as int)
}

/// Render one completed comparison record: the key, then for every source
/// in the declared order its delta in milliseconds — zero for the source
/// that arrived first.
pub fn render_comparison(key: u64, names: &Vec<String>, deltas: &Vec<u64>) -> (line: String)
    requires
        names@.len() == deltas@.len(),
    ensures
        line@ == comparison_line(key, names@.map_values(|s: String| s@), deltas@),
{
    let ghost nv = names@.map_values(|s: String| s@);
    let mut line = u64_to_dec(key);
    line.append(": ");
    proof {
        assert(line@ =~= dec_digits(key as nat) + ": "@ + entries_upto(nv, deltas@, 0));
    }
    let mut i: usize = 0;
    while i < deltas.len()
        invariant
            i <= deltas@.len(),
            names@.len() == deltas@.len(),
            nv == names@.map_values(|s: String| s@),
            line@ == dec_digits(key as nat) + ": "@ + entries_upto(nv, deltas@, i as int),
        decreases deltas@.len() - i,
    {
        if i > 0 {
            line.append(", ");
        }
        line.append(names[i].as_str());
        line.append(" +");
        let d = u64_to_dec(deltas[i]);
        line.append(d.as_str());
        line.append("ms");
        proof {
            assert(line@ =~= dec_digits(key as nat) + ": "@ + entries_upto(
                nv,
                deltas@,
                i + 1 as int,
            ));
        }
        i += 1;
    }
    line
}

} // verus!
