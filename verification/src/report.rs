//! The text of the report: one block per duplicate group and the summary line.

use vstd::prelude::*;
use vstd::string::StringExecFns;
use crate::entry::Stats;
use crate::group::DuplicateGroup;

verus! {

/// The character of one decimal digit.
pub open spec fn digit(d: nat) -> char {
    if d == 0 {
        '0'
    } else if d == 1 {
        '1'
    } else if d == 2 {
        '2'
    } else if d == 3 {
        '3'
    } else if d == 4 {
        '4'
    } else if d == 5 {
        '5'
    } else if d == 6 {
        '6'
    } else if d == 7 {
        '7'
    } else if d == 8 {
        '8'
    } else {
        '9'
    }
}

/// The decimal numeral of `n`, without leading zeros.
pub open spec fn decimal(n: nat) -> Seq<char>
    decreases n,
{
    if n < 10 {
        seq![digit(n)]
    } else {
        decimal(n / 10).push(digit(n % 10))
    }
}

/// The paths, each followed by a line break.
pub open spec fn lines(paths: Seq<String>) -> Seq<char>
    decreases paths.len(),
{
    if paths.len() == 0 {
        Seq::empty()
    } else {
        lines(paths.drop_last()) + paths.last()@ + seq!['\n']
    }
}

/// The paths on one line, with a hyphen between each two.
pub open spec fn joined(paths: Seq<String>) -> Seq<char>
    decreases paths.len(),
{
    if paths.len() == 0 {
        Seq::empty()
    } else if paths.len() == 1 {
        paths[0]@
    } else {
        joined(paths.drop_last()) + seq!['-'] + paths.last()@
    }
}

/// The heading that gives the shared length of a group.
pub open spec fn size_heading(length: u64) -> Seq<char> {
    decimal(length as nat) + " bytes each:\n"@
}

/// The block printed for one group: with `show_size` first its heading; then,
/// with `sameline`, the paths joined on one line, else one path per line and an
/// empty line after the last.
pub open spec fn group_text(group: DuplicateGroup, show_size: bool, sameline: bool) -> Seq<char> {
    (if show_size {
        size_heading(group.key.length)
    } else {
        Seq::empty()
    }) + (if sameline {
        joined(group.paths@) + seq!['\n']
    } else {
        lines(group.paths@) + seq!['\n']
    })
}

/// The summary line, without a line break.
pub open spec fn summary_text(stats: Stats) -> Seq<char> {
    "Processed "@ + decimal(stats.file_count as nat) + " files with a total size of "@ + decimal(
        stats.total_size as nat,
    ) + " bytes. "@ + decimal(stats.duplicate_count as nat) + " duplicates found."@
}

fn digit_text(d: u64) -> (text: &'static str)
    requires
        d < 10,
    ensures
        text@ == seq![digit(d as nat)],
{
    proof {
        reveal_strlit("0");
        reveal_strlit("1");
        reveal_strlit("2");
        reveal_strlit("3");
        reveal_strlit("4");
        reveal_strlit("5");
        reveal_strlit("6");
        reveal_strlit("7");
        reveal_strlit("8");
        reveal_strlit("9");
    }
    let text = if d == 0 {
        "0"
    } else if d == 1 {
        "1"
    } else if d == 2 {
        "2"
    } else if d == 3 {
        "3"
    } else if d == 4 {
        "4"
    } else if d == 5 {
        "5"
    } else if d == 6 {
        "6"
    } else if d == 7 {
        "7"
    } else if d == 8 {
        "8"
    } else {
        "9"
    };
    assert(text@ =~= seq![digit(d as nat)]);
    text
}

/// Appends the decimal numeral of `n` to `out`.
pub fn push_decimal(out: &mut String, n: u64)
    ensures
        final(out)@ == old(out)@ + decimal(n as nat),
    decreases n,
{
    if n >= 10 {
        push_decimal(out, n / 10);
    }
    out.append(digit_text(n % 10));
    proof {
        let head = old(out)@;
        if n >= 10 {
            assert((head + decimal((n / 10) as nat)) + seq![digit((n % 10) as nat)] =~= head + decimal(
                (n / 10) as nat,
            ).push(digit((n % 10) as nat)));
        } else {
            assert(head + seq![digit(n as nat)] =~= head + decimal(n as nat));
        }
    }
}

/// Renders the block of one group.
pub fn render_group(group: &DuplicateGroup, show_size: bool, sameline: bool) -> (text: String)
    ensures
        text@ == group_text(*group, show_size, sameline),
{
    proof {
        reveal_strlit("\n");
        reveal_strlit("-");
    }
    let mut text = String::new();
    if show_size {
        push_decimal(&mut text, group.key.length);
        text.append(" bytes each:\n");
    }
    let ghost heading = text@;
    assert(heading =~= if show_size {
        size_heading(group.key.length)
    } else {
        Seq::<char>::empty()
    });
    let mut i: usize = 0;
    while i < group.paths.len()
        invariant
            0 <= i <= group.paths@.len(),
            "\n"@ == seq!['\n'],
            "-"@ == seq!['-'],
            text@ == heading + (if sameline {
                joined(group.paths@.take(i as int))
            } else {
                lines(group.paths@.take(i as int))
            }),
        decreases group.paths@.len() - i,
    {
        let ghost seen = group.paths@.take(i as int);
        let ghost next = group.paths@.take(i as int + 1);
        proof {
            assert(next.drop_last() == seen);
            assert(next.last() == group.paths@[i as int]);
        }
        if sameline {
            if i > 0 {
                text.append("-");
            }
            text.append(group.paths[i].as_str());
            proof {
                if i > 0 {
                    assert(heading + joined(seen) + seq!['-'] + next.last()@ =~= heading + joined(next));
                } else {
                    assert(joined(seen) =~= Seq::<char>::empty());
                    assert(heading + joined(seen) + next.last()@ =~= heading + joined(next));
                }
            }
        } else {
            text.append(group.paths[i].as_str());
            text.append("\n");
            proof {
                assert(heading + lines(seen) + next.last()@ + seq!['\n'] =~= heading + lines(next));
            }
        }
        i = i + 1;
    }
    proof {
        assert(group.paths@.take(group.paths@.len() as int) == group.paths@);
    }
    let ghost body = text@;
    text.append("\n");
    proof {
        let listing = if sameline {
            joined(group.paths@)
        } else {
            lines(group.paths@)
        };
        assert(body + seq!['\n'] =~= heading + (listing + seq!['\n']));
    }
    text
}

/// Renders the summary line.
pub fn render_summary(stats: &Stats) -> (text: String)
    ensures
        text@ == summary_text(*stats),
{
    let mut text = String::new();
    text.append("Processed ");
    push_decimal(&mut text, stats.file_count);
    text.append(" files with a total size of ");
    push_decimal(&mut text, stats.total_size);
    text.append(" bytes. ");
    push_decimal(&mut text, stats.duplicate_count);
    text.append(" duplicates found.");
    proof {
        assert(text@ =~= summary_text(*stats));
    }
    text
}

} // verus!
