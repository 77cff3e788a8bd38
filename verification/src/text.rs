//! Text building: decimal numbers, file names without their extension, and
//! the names under which leaderboards are kept.
use vstd::prelude::*;
use vstd::string::*;

verus! {

/// The extension of a level's file.
pub open spec fn level_extension() -> Seq<char> {
    seq!['.', 'b', 'y', 't', 'e', 's']
}

/// What every leaderboard name ends with.
pub open spec fn stable_suffix() -> Seq<char> {
    seq!['_', 's', 't', 'a', 'b', 'l', 'e']
}

/// The character of a decimal digit.
pub open spec fn digit(d: nat) -> char {
    if d == 0 {
        '0'
    } else if d == 1 {
        '1'
    } else if d == 2 {
        '2'
    } else if d == 3 {
        '3'
    } else if d == 4 {
        '4'
    } else if d == 5 {
        '5'
    } else if d == 6 {
        '6'
    } else if d == 7 {
        '7'
    } else if d == 8 {
        '8'
    } else {
        '9'
    }
}

/// The number in decimal, without sign or leading zeros.
pub open spec fn decimal(n: nat) -> Seq<char>
    decreases n,
{
    if n < 10 {
        seq![digit(n)]
    } else {
        decimal(n / 10).push(digit(n % 10))
    }
}

/// Whether `text` ends with `suffix`.
pub open spec fn ends_with(text: Seq<char>, suffix: Seq<char>) -> bool {
    suffix.len() <= text.len() && text.subrange(text.len() - suffix.len(), text.len() as int)
        == suffix
}

/// `text` without any repetition of `suffix` at its end.
pub open spec fn without_trailing(text: Seq<char>, suffix: Seq<char>) -> Seq<char>
    decreases text.len(),
{
    if suffix.len() > 0 && ends_with(text, suffix) {
        without_trailing(text.take(text.len() - suffix.len()), suffix)
    } else {
        text
    }
}

/// The name of the leaderboard of a first-party level.
pub open spec fn official_name(file_name: Seq<char>, game_mode: nat) -> Seq<char> {
    file_name + seq!['_'] + decimal(game_mode) + stable_suffix()
}

/// The name of the leaderboard of a community level.
pub open spec fn workshop_name(file_name: Seq<char>, game_mode: nat, creator: Seq<char>) -> Seq<
    char,
> {
    file_name + seq!['_'] + decimal(game_mode) + seq!['_'] + creator + stable_suffix()
}

fn digit_text(d: u64) -> (r: &'static str)
    requires
        d < 10,
    ensures
        r@ == seq![digit(d as nat)],
{
    proof {
        reveal_strlit("0");
        reveal_strlit("1");
        reveal_strlit("2");
        reveal_strlit("3");
        reveal_strlit("4");
        reveal_strlit("5");
        reveal_strlit("6");
        reveal_strlit("7");
        reveal_strlit("8");
        reveal_strlit("9");
    }
    let r: &'static str = if d == 0 {
        "0"
    } else if d == 1 {
        "1"
    } else if d == 2 {
        "2"
    } else if d == 3 {
        "3"
    } else if d == 4 {
        "4"
    } else if d == 5 {
        "5"
    } else if d == 6 {
        "6"
    } else if d == 7 {
        "7"
    } else if d == 8 {
        "8"
    } else {
        "9"
    };
    assert(r@ =~= seq![digit(d as nat)]);
    r
}

/// Appends the number in decimal.
pub fn push_decimal(out: &mut String, n: u64)
    ensures
        final(out)@ == old(out)@ + decimal(n as nat),
    decreases n,
{
    if n >= 10 {
        push_decimal(out, n / 10);
    }
    out.append(digit_text(n % 10));
    assert(out@ =~= old(out)@ + decimal(n as nat));
}

/// The file name without its `.bytes` extension, however often repeated.
pub fn get_level_filename_no_ext(filename: &str) -> (r: String)
    ensures
        r@ == without_trailing(filename@, level_extension()),
{
    let mut end: usize = filename.unicode_len();
    assert(filename@.take(end as int) =~= filename@);
    loop
        invariant
            end <= filename@.len(),
            without_trailing(filename@, level_extension()) == without_trailing(
                filename@.take(end as int),
                level_extension(),
            ),
        ensures
            end <= filename@.len(),
            without_trailing(filename@, level_extension()) == filename@.take(end as int),
        decreases end,
    {
        let ghost head = filename@.take(end as int);
        if end < 6 {
            break ;
        }
        let matches: bool = filename.get_char(end - 6) == '.' && filename.get_char(end - 5) == 'b'
            && filename.get_char(end - 4) == 'y' && filename.get_char(end - 3) == 't'
            && filename.get_char(end - 2) == 'e' && filename.get_char(end - 1) == 's';
        proof {
            let tail = head.subrange(head.len() - 6, head.len() as int);
            if matches {
                assert(tail =~= level_extension());
                assert(head.take(head.len() - 6) =~= filename@.take(end as int - 6));
            } else {
                if ends_with(head, level_extension()) {
                    assert(tail[0] == '.' && tail[1] == 'b' && tail[2] == 'y' && tail[3] == 't'
                        && tail[4] == 'e' && tail[5] == 's');
                }
            }
        }
        if !matches {
            break ;
        }
        end = end - 6;
    }
    let kept: &str = filename.substring_char(0, end);
    assert(filename@.subrange(0, end as int) =~= filename@.take(end as int));
    String::from_str(kept)
}

/// The name of the leaderboard of a first-party level:
/// `<file>_<mode>_stable`.
pub fn get_leaderboard_name_official(file_name_no_ext: &str, game_mode_id: u8) -> (r: String)
    ensures
        r@ == official_name(file_name_no_ext@, game_mode_id as nat),
{
    proof {
        reveal_strlit("_");
        reveal_strlit("_stable");
    }
    let mut name: String = String::from_str(file_name_no_ext);
    name.append("_");
    push_decimal(&mut name, game_mode_id as u64);
    name.append("_stable");
    assert(name@ =~= official_name(file_name_no_ext@, game_mode_id as nat));
    name
}

/// The name of the leaderboard of a community level:
/// `<file>_<mode>_<creator>_stable`.
pub fn get_leaderboard_name_workshop(file_name_no_ext: &str, game_mode_id: u8, creator_id: &str) -> (r:
    String)
    ensures
        r@ == workshop_name(file_name_no_ext@, game_mode_id as nat, creator_id@),
{
    proof {
        reveal_strlit("_");
        reveal_strlit("_stable");
    }
    let mut name: String = String::from_str(file_name_no_ext);
    name.append("_");
    push_decimal(&mut name, game_mode_id as u64);
    name.append("_");
    name.append(creator_id);
    name.append("_stable");
    assert(name@ =~= workshop_name(file_name_no_ext@, game_mode_id as nat, creator_id@));
    name
}

} // verus!
