//! Peephole optimizations for Brainfuck programs: cancelling opposed
//! instruction pairs, and compressing runs into macro-instructions. Each
//! pass is proved to produce exactly the sequence its specification
//! function describes.

use vstd::prelude::*;

verus! {

/// `n` copies of `c`.
pub open spec fn repeat_char(c: char, n: nat) -> Seq<char> {
    Seq::new(n, |i: int| c)
}

/// The survivors of a cancelled run: the surplus of whichever of the two
/// instructions occurred more often.
pub open spec fn spec_emit_pair(c1: char, c2: char, c1c: nat, c2c: nat) -> Seq<char> {
    if c1c > c2c {
        repeat_char(c1, (c1c - c2c) as nat)
    } else if c2c > c1c {
        repeat_char(c2, (c2c - c1c) as nat)
    } else {
        Seq::empty()
    }
}

/// Cancel opposed `c1`/`c2` pairs within each contiguous run of the two
/// instructions, keeping only the surplus; all other characters cut runs
/// and pass through unchanged.
pub open spec fn spec_max_reduction(
    c1: char,
    c2: char,
    s: Seq<char>,
    i: int,
    c1c: nat,
    c2c: nat,
    acc: Seq<char>,
) -> Seq<char>
    decreases s.len() - i,
    when 0 <= i
{
    if i >= s.len() {
        acc + spec_emit_pair(c1, c2, c1c, c2c)
    } else if s[i] == c1 {
        spec_max_reduction(c1, c2, s, i + 1, c1c + 1, c2c, acc)
    } else if s[i] == c2 {
        spec_max_reduction(c1, c2, s, i + 1, c1c, c2c + 1, acc)
    } else {
        spec_max_reduction(c1, c2, s, i + 1, 0, 0, acc + spec_emit_pair(c1, c2, c1c, c2c) + seq![s[i]])
    }
}

/// Append `n` copies of `c`.
fn push_repeat(res: &mut Vec<char>, c: char, n: u64)
    ensures
        final(res)@ =~= old(res)@ + repeat_char(c, n as nat),
{
    let ghost r0 = res@;
    let mut k: u64 = 0;
    while k < n
        invariant
            k <= n,
            res@ =~= r0 + repeat_char(c, k as nat),
        decreases n - k,
    {
        res.push(c);
        proof {
            assert(res@ =~= r0 + repeat_char(c, (k + 1) as nat));
        }
        k = k + 1;
    }
}

/// Append the surplus of a cancelled run.
fn push_emit_pair(res: &mut Vec<char>, c1: char, c2: char, c1c: usize, c2c: usize)
    ensures
        final(res)@ =~= old(res)@ + spec_emit_pair(c1, c2, c1c as nat, c2c as nat),
{
    if c1c > c2c {
        push_repeat(res, c1, (c1c - c2c) as u64);
    } else if c2c > c1c {
        push_repeat(res, c2, (c2c - c1c) as u64);
    } else {
        proof {
            assert(res@ =~= res@ + Seq::<char>::empty());
        }
    }
}

/// The shared pair-cancelling pass, exactly as [`spec_max_reduction`] says.
fn max_reduction(c1: char, c2: char, input: Vec<char>) -> (r: Vec<char>)
    ensures
        r@ == spec_max_reduction(c1, c2, input@, 0, 0, 0, Seq::empty()),
{
    let ghost s = input@;
    let n = input.len();
    let mut res: Vec<char> = Vec::new();
    let mut c1_count: usize = 0;
    let mut c2_count: usize = 0;
    let mut i: usize = 0;
    proof {
        assert(Seq::<char>::empty() =~= res@);
    }
    while i < n
        invariant
            i <= n,
            n == s.len(),
            input@ == s,
            c1_count <= i,
            c2_count <= i,
            spec_max_reduction(c1, c2, s, 0, 0, 0, Seq::empty()) == spec_max_reduction(
                c1,
                c2,
                s,
                i as int,
                c1_count as nat,
                c2_count as nat,
                res@,
            ),
        decreases n - i,
    {
        let c = input[i];
        let ghost r0 = res@;
        if c == c1 {
            c1_count = c1_count + 1;
        } else if c == c2 {
            c2_count = c2_count + 1;
        } else {
            push_emit_pair(&mut res, c1, c2, c1_count, c2_count);
            res.push(c);
            proof {
                assert(res@ =~= r0 + spec_emit_pair(c1, c2, c1_count as nat, c2_count as nat)
                    + seq![c]);
            }
            c1_count = 0;
            c2_count = 0;
        }
        i = i + 1;
    }
    push_emit_pair(&mut res, c1, c2, c1_count, c2_count);
    res
}

/// Cancel `+`/`-` pairs within each run of arithmetic instructions; with
/// wrapping cell arithmetic this is always behaviour-preserving.
pub fn math_reduction(input: Vec<char>) -> (r: Vec<char>)
    ensures
        r@ == spec_max_reduction('+', '-', input@, 0, 0, 0, Seq::empty()),
{
    max_reduction('+', '-', input)
}

/// Cancel `>`/`<` pairs within each run of move instructions. This can skip
/// a bounds failure the unoptimized program would have hit, so it is an
/// aggressive pass.
pub fn full_dp_reduction(input: Vec<char>) -> (r: Vec<char>)
    ensures
        r@ == spec_max_reduction('>', '<', input@, 0, 0, 0, Seq::empty()),
{
    max_reduction('>', '<', input)
}

/// The decimal digits of `n`, most significant first.
pub open spec fn dec_chars(n: nat) -> Seq<char>
    decreases n,
{
    if n < 10 {
        seq![((48 + n) as u32) as char]
    } else {
        dec_chars(n / 10).push(((48 + n % 10) as u32) as char)
    }
}

/// Render `n` in decimal.
fn render_digits(n: u64) -> (r: Vec<char>)
    ensures
        r@ == dec_chars(n as nat),
    decreases n,
{
    if n < 10 {
        let mut v: Vec<char> = Vec::new();
        v.push(((48 + (n as u32)) as u8) as char);
        proof {
            assert(v@ =~= seq![((48 + n as nat) as u32) as char]);
        }
        v
    } else {
        let mut v = render_digits(n / 10);
        v.push(((48 + ((n % 10) as u32)) as u8) as char);
        v
    }
}

/// The one-letter name of an opcode inside a macro-instruction.
pub open spec fn spec_alt_opcode(c: char) -> char {
    if c == '+' {
        'p'
    } else if c == '-' {
        'm'
    } else if c == '<' {
        'b'
    } else if c == '>' {
        'f'
    } else if c == '.' {
        'o'
    } else if c == ',' {
        'i'
    } else if c == '[' {
        '{'
    } else if c == ']' {
        '}'
    } else {
        c
    }
}

/// The one-letter name of an opcode inside a macro-instruction.
pub fn to_alt_opcode(c: char) -> (r: char)
    requires
        crate::brainfuck::spec_valid_op(c),
    ensures
        r == spec_alt_opcode(c),
{
    match c {
        '+' => 'p',
        '-' => 'm',
        '<' => 'b',
        '>' => 'f',
        '.' => 'o',
        ',' => 'i',
        '[' => '{',
        _ => '}',
    }
}

/// True when runs of `c` may be compressed.
pub open spec fn spec_compressable(c: char) -> bool {
    c == '+' || c == '-' || c == '<' || c == '>'
}

/// What a finished run emits: nothing for an empty run, the character
/// itself for a run of one, and a `(count*name)` macro-instruction for a
/// longer run.
pub open spec fn spec_emit_run(cc: char, cnt: nat) -> Seq<char> {
    if cnt == 0 {
        Seq::empty()
    } else if cnt == 1 {
        seq![cc]
    } else {
        seq!['('] + dec_chars(cnt) + seq!['*', spec_alt_opcode(cc), ')']
    }
}

/// Compress each run of identical compressable instructions into a
/// macro-instruction; runs of one and other characters pass through.
pub open spec fn spec_compress(s: Seq<char>, i: int, cc: char, cnt: nat, acc: Seq<char>) -> Seq<
    char,
>
    decreases s.len() - i,
    when 0 <= i
{
    if i >= s.len() {
        acc + spec_emit_run(cc, cnt)
    } else if spec_compressable(s[i]) && s[i] == cc {
        spec_compress(s, i + 1, cc, cnt + 1, acc)
    } else {
        spec_compress(s, i + 1, s[i], 1, acc + spec_emit_run(cc, cnt))
    }
}

/// Append what a finished run emits.
fn push_emit_run(res: &mut Vec<char>, cc: char, cnt: u64)
    requires
        cnt >= 2 ==> crate::brainfuck::spec_valid_op(cc),
    ensures
        final(res)@ =~= old(res)@ + spec_emit_run(cc, cnt as nat),
{
    if cnt == 0 {
        proof {
            assert(res@ =~= res@ + Seq::<char>::empty());
        }
    } else if cnt == 1 {
        res.push(cc);
    } else {
        let ghost r0 = res@;
        res.push('(');
        let mut digits = render_digits(cnt);
        res.append(&mut digits);
        res.push('*');
        res.push(to_alt_opcode(cc));
        res.push(')');
        proof {
            assert(res@ =~= r0 + spec_emit_run(cc, cnt as nat));
        }
    }
}

/// Compress runs of identical instructions, exactly as [`spec_compress`]
/// says: `>>>>>` becomes `(5*f)`.
pub fn compress_seq(input: Vec<char>) -> (r: Vec<char>)
    ensures
        r@ == spec_compress(input@, 0, '\0', 0, Seq::empty()),
{
    let ghost s = input@;
    let n = input.len();
    let mut res: Vec<char> = Vec::new();
    let mut curr_char: char = '\0';
    let mut count: u64 = 0;
    let mut i: usize = 0;
    proof {
        assert(Seq::<char>::empty() =~= res@);
    }
    while i < n
        invariant
            i <= n,
            n == s.len(),
            input@ == s,
            count <= i,
            count >= 2 ==> crate::brainfuck::spec_valid_op(curr_char),
            spec_compress(s, 0, '\0', 0, Seq::empty()) == spec_compress(
                s,
                i as int,
                curr_char,
                count as nat,
                res@,
            ),
        decreases n - i,
    {
        let c = input[i];
        let compressable = c == '+' || c == '-' || c == '<' || c == '>';
        if compressable && c == curr_char {
            count = count + 1;
        } else {
            push_emit_run(&mut res, curr_char, count);
            curr_char = c;
            count = 1;
        }
        i = i + 1;
    }
    push_emit_run(&mut res, curr_char, count);
    res
}

} // verus!

verus! {

/// What a finished run of moves emits: when the current offset is not
/// itself the farthest point reached, a `(left;right)` bounds-check
/// macro-instruction; then the net movement as plain instructions.
pub open spec fn spec_emit_moves(cd: int, ml: nat, mr: nat) -> Seq<char> {
    let check: Seq<char> = if (ml == 0 && cd >= mr) || (mr == 0 && cd <= -(ml as int)) {
        Seq::empty()
    } else {
        seq!['('] + dec_chars(ml) + seq![';'] + dec_chars(mr) + seq![')']
    };
    let moves: Seq<char> = if cd < 0 {
        repeat_char('<', (-cd) as nat)
    } else if cd > 0 {
        repeat_char('>', cd as nat)
    } else {
        Seq::empty()
    };
    check + moves
}

/// Reduce each run of `<`/`>` to a bounds-check macro-instruction plus the
/// net movement, tracking the farthest left and right offsets reached
/// within the run; other characters cut runs and pass through.
pub open spec fn spec_safe_dp(s: Seq<char>, i: int, cd: int, ml: nat, mr: nat, acc: Seq<char>)
    -> Seq<char>
    decreases s.len() - i,
    when 0 <= i
{
    if i >= s.len() {
        acc + spec_emit_moves(cd, ml, mr)
    } else if s[i] == '<' {
        let cd2 = cd - 1;
        let ml2: nat = if cd2 < -(ml as int) {
            ml + 1
        } else {
            ml
        };
        spec_safe_dp(s, i + 1, cd2, ml2, mr, acc)
    } else if s[i] == '>' {
        let cd2 = cd + 1;
        let mr2: nat = if cd2 > mr {
            mr + 1
        } else {
            mr
        };
        spec_safe_dp(s, i + 1, cd2, ml, mr2, acc)
    } else {
        spec_safe_dp(s, i + 1, 0, 0, 0, acc + spec_emit_moves(cd, ml, mr) + seq![s[i]])
    }
}

/// Append what a finished run of moves emits.
fn push_emit_moves(res: &mut Vec<char>, cd: i64, ml: u64, mr: u64)
    requires
        cd > i64::MIN,
    ensures
        final(res)@ =~= old(res)@ + spec_emit_moves(cd as int, ml as nat, mr as nat),
{
    let ghost r0 = res@;
    let neg_mag: u64 = if cd < 0 {
        ((-(cd + 1)) as u64) + 1
    } else {
        0
    };
    let pos_mag: u64 = if cd > 0 {
        cd as u64
    } else {
        0
    };
    if (ml == 0 && cd >= 0 && pos_mag >= mr) || (mr == 0 && cd <= 0 && neg_mag >= ml) {
        proof {
            assert(res@ =~= r0 + Seq::<char>::empty());
        }
    } else {
        res.push('(');
        let mut dl = render_digits(ml);
        res.append(&mut dl);
        res.push(';');
        let mut dr = render_digits(mr);
        res.append(&mut dr);
        res.push(')');
        proof {
            assert(res@ =~= r0 + (seq!['('] + dec_chars(ml as nat) + seq![';'] + dec_chars(
                mr as nat,
            ) + seq![')']));
        }
    }
    let ghost r1 = res@;
    if cd < 0 {
        push_repeat(res, '<', neg_mag);
    } else if cd > 0 {
        push_repeat(res, '>', pos_mag);
    } else {
        proof {
            assert(res@ =~= r1 + Seq::<char>::empty());
        }
    }
    proof {
        assert(final(res)@ =~= old(res)@ + spec_emit_moves(cd as int, ml as nat, mr as nat));
    }
}

/// Reduce each run of moves to a bounds-check macro-instruction plus the
/// net movement, exactly as [`spec_safe_dp`] says: `>>>>><<<<<<` becomes
/// `(5;1)<`.
pub fn safe_dp_reduction(input: Vec<char>) -> (r: Vec<char>)
    requires
        input@.len() < 0x8000_0000_0000_0000,
    ensures
        r@ == spec_safe_dp(input@, 0, 0, 0, 0, Seq::empty()),
{
    let ghost s = input@;
    let n = input.len();
    let mut res: Vec<char> = Vec::new();
    let mut curr_diff: i64 = 0;
    let mut max_left: u64 = 0;
    let mut max_right: u64 = 0;
    let mut i: usize = 0;
    proof {
        assert(Seq::<char>::empty() =~= res@);
    }
    while i < n
        invariant
            i <= n,
            n == s.len(),
            n < 0x8000_0000_0000_0000,
            input@ == s,
            -(i as int) <= curr_diff <= i,
            max_left <= i,
            max_right <= i,
            spec_safe_dp(s, 0, 0, 0, 0, Seq::empty()) == spec_safe_dp(
                s,
                i as int,
                curr_diff as int,
                max_left as nat,
                max_right as nat,
                res@,
            ),
        decreases n - i,
    {
        let c = input[i];
        let ghost r0 = res@;
        if c == '<' {
            curr_diff = curr_diff - 1;
            if curr_diff < 0 && ((-curr_diff) as u64) > max_left {
                max_left = max_left + 1;
            }
        } else if c == '>' {
            curr_diff = curr_diff + 1;
            if curr_diff > 0 && (curr_diff as u64) > max_right {
                max_right = max_right + 1;
            }
        } else {
            push_emit_moves(&mut res, curr_diff, max_left, max_right);
            res.push(c);
            proof {
                assert(res@ =~= r0 + spec_emit_moves(
                    curr_diff as int,
                    max_left as nat,
                    max_right as nat,
                ) + seq![c]);
            }
            curr_diff = 0;
            max_left = 0;
            max_right = 0;
        }
        i = i + 1;
    }
    push_emit_moves(&mut res, curr_diff, max_left, max_right);
    res
}

} // verus!
