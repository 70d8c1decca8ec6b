use vstd::prelude::*;

verus! {

/// Decimal digit `d` as a character.
pub open spec fn digit(d: int) -> char {
    seq!['0', '1', '2', '3', '4', '5', '6', '7', '8', '9'][d]
}

/// Decimal writing of `v`, without leading zeros.
pub open spec fn decimal(v: nat) -> Seq<char>
    decreases v,
{
    if v < 10 {
        seq![digit(v as int)]
    } else {
        decimal(v / 10).push(digit((v % 10) as int))
    }
}

/// `n` copies of `c`.
pub open spec fn repeat(c: char, n: int) -> Seq<char> {
    Seq::new(n as nat, |i: int| c)
}

/// A cell as five characters: blank when empty, else its value aligned right.
/// A value of more than five digits is written whole.
pub open spec fn cell_text(v: u32) -> Seq<char> {
    if v == 0 {
        repeat(' ', 5)
    } else {
        let d = decimal(v as nat);
        repeat(' ', if d.len() < 5 { 5 - d.len() } else { 0 }) + d
    }
}

/// The first `n` cells of row `i`, each behind a `|`.
pub open spec fn row_cells(g: Seq<u32>, w: int, i: int, n: int) -> Seq<char>
    decreases n,
{
    if n <= 0 {
        seq![]
    } else {
        row_cells(g, w, i, n - 1) + seq!['|'] + cell_text(g[i * w + n - 1])
    }
}

/// Row `i` of the grid as one line of text.
pub open spec fn row_text(g: Seq<u32>, w: int, i: int) -> Seq<char> {
    row_cells(g, w, i, w) + seq!['|', '\n']
}

/// `n` segments `|-----`.
pub open spec fn divider_cells(n: int) -> Seq<char>
    decreases n,
{
    if n <= 0 {
        seq![]
    } else {
        divider_cells(n - 1) + seq!['|', '-', '-', '-', '-', '-']
    }
}

/// The line between two rows.
pub open spec fn divider(w: int) -> Seq<char> {
    divider_cells(w) + seq!['|', '\n']
}

/// The top and bottom border.
pub open spec fn rule(w: int) -> Seq<char> {
    seq![' '] + repeat('-', 6 * w - 1) + seq![' ']
}

/// The first `n` rows, with a divider between each two.
pub open spec fn rows_text(g: Seq<u32>, w: int, n: int) -> Seq<char>
    decreases n,
{
    if n <= 0 {
        seq![]
    } else if n == 1 {
        row_text(g, w, 0)
    } else {
        rows_text(g, w, n - 1) + divider(w) + row_text(g, w, n - 1)
    }
}

/// The whole board as text: a border, the rows, and a border.
pub open spec fn board_text(g: Seq<u32>, l: int, w: int) -> Seq<char> {
    rule(w) + seq!['\n'] + rows_text(g, w, l) + rule(w)
}

proof fn lemma_decimal_len(v: nat)
    ensures
        v < 10 ==> decimal(v).len() == 1,
        10 <= v < 100 ==> decimal(v).len() == 2,
        100 <= v < 1000 ==> decimal(v).len() == 3,
        1000 <= v < 10000 ==> decimal(v).len() == 4,
        10000 <= v ==> decimal(v).len() >= 5,
    decreases v,
{
    if v >= 10 {
        lemma_decimal_len(v / 10);
    }
}

fn push_digit(s: &mut String, d: u32)
    requires
        d < 10,
    ensures
        final(s)@ == old(s)@.push(digit(d as int)),
{
    let t = if d == 0 {
        "0"
    } else if d == 1 {
        "1"
    } else if d == 2 {
        "2"
    } else if d == 3 {
        "3"
    } else if d == 4 {
        "4"
    } else if d == 5 {
        "5"
    } else if d == 6 {
        "6"
    } else if d == 7 {
        "7"
    } else if d == 8 {
        "8"
    } else {
        "9"
    };
    proof {
        reveal_strlit("0");
        reveal_strlit("1");
        reveal_strlit("2");
        reveal_strlit("3");
        reveal_strlit("4");
        reveal_strlit("5");
        reveal_strlit("6");
        reveal_strlit("7");
        reveal_strlit("8");
        reveal_strlit("9");
    }
    assert(t@ =~= seq![digit(d as int)]);
    s.append(t);
}

fn push_decimal(s: &mut String, v: u32)
    ensures
        final(s)@ == old(s)@ + decimal(v as nat),
    decreases v,
{
    if v >= 10 {
        push_decimal(s, v / 10);
    }
    push_digit(s, v % 10);
}

/// Appends `n` blanks.
fn push_blanks(s: &mut String, n: usize)
    ensures
        final(s)@ == old(s)@ + repeat(' ', n as int),
{
    let ghost s0 = s@;
    let mut k: usize = 0;
    while k < n
        invariant
            k <= n,
            s@ == s0 + repeat(' ', k as int),
        decreases n - k,
    {
        proof {
            reveal_strlit(" ");
        }
        s.append(" ");
        k += 1;
        assert(s@ =~= s0 + repeat(' ', k as int));
    }
}

fn push_cell(s: &mut String, v: u32)
    ensures
        final(s)@ == old(s)@ + cell_text(v),
{
    if v == 0 {
        push_blanks(s, 5);
        return;
    }
    proof {
        lemma_decimal_len(v as nat);
    }
    let pad: usize = if v < 10 {
        4
    } else if v < 100 {
        3
    } else if v < 1000 {
        2
    } else if v < 10000 {
        1
    } else {
        0
    };
    let ghost s0 = s@;
    push_blanks(s, pad);
    push_decimal(s, v);
    assert(s@ =~= s0 + cell_text(v));
}

fn push_rule(s: &mut String, w: usize)
    requires
        w >= 1,
    ensures
        final(s)@ == old(s)@ + rule(w as int),
{
    let ghost s0 = s@;
    proof {
        reveal_strlit(" ");
        reveal_strlit("-----");
        reveal_strlit("------");
    }
    s.append(" ");
    s.append("-----");
    assert(s@ =~= s0 + seq![' '] + repeat('-', 5));
    let mut j: usize = 1;
    while j < w
        invariant
            1 <= j <= w,
            s@ == s0 + seq![' '] + repeat('-', 6 * j - 1),
        decreases w - j,
    {
        proof {
            reveal_strlit("------");
        }
        s.append("------");
        j += 1;
        assert(s@ =~= s0 + seq![' '] + repeat('-', 6 * j - 1));
    }
    s.append(" ");
    assert(s@ =~= s0 + rule(w as int));
}

fn push_divider(s: &mut String, w: usize)
    ensures
        final(s)@ == old(s)@ + divider(w as int),
{
    let ghost s0 = s@;
    proof {
        reveal_strlit("|-----");
        reveal_strlit("|\n");
    }
    let mut j: usize = 0;
    while j < w
        invariant
            j <= w,
            s@ == s0 + divider_cells(j as int),
        decreases w - j,
    {
        proof {
            reveal_strlit("|-----");
        }
        s.append("|-----");
        j += 1;
        assert(s@ =~= s0 + divider_cells(j as int));
    }
    s.append("|\n");
    assert(s@ =~= s0 + divider(w as int));
}

fn push_row(s: &mut String, g: &Vec<u32>, l: usize, w: usize, i: usize)
    requires
        i < l,
        g@.len() == l * w,
    ensures
        final(s)@ == old(s)@ + row_text(g@, w as int, i as int),
{
    let ghost s0 = s@;
    let n = g.len();
    let mut j: usize = 0;
    while j < w
        invariant
            i < l,
            g@.len() == l * w,
            n == g@.len(),
            j <= w,
            s@ == s0 + row_cells(g@, w as int, i as int, j as int),
        decreases w - j,
    {
        assert(i * w + j < l * w) by (nonlinear_arith)
            requires
                i < l,
                j < w,
        ;
        proof {
            reveal_strlit("|");
        }
        s.append("|");
        push_cell(s, g[i * w + j]);
        j += 1;
        assert(s@ =~= s0 + row_cells(g@, w as int, i as int, j as int));
    }
    proof {
        reveal_strlit("|\n");
    }
    s.append("|\n");
    assert(s@ =~= s0 + row_text(g@, w as int, i as int));
}

/// The grid `g` of `l` rows and `w` columns as bordered text, five characters a cell.
pub(crate) fn render_grid(g: &Vec<u32>, l: usize, w: usize) -> (r: String)
    requires
        w >= 1,
        g@.len() == l * w,
    ensures
        r@ == board_text(g@, l as int, w as int),
{
    let mut s = String::new();
    proof {
        reveal_strlit("\n");
    }
    push_rule(&mut s, w);
    s.append("\n");
    let ghost head = s@;
    let mut i: usize = 0;
    while i < l
        invariant
            w >= 1,
            g@.len() == l * w,
            i <= l,
            s@ == head + rows_text(g@, w as int, i as int),
        decreases l - i,
    {
        if i > 0 {
            push_divider(&mut s, w);
        }
        push_row(&mut s, g, l, w, i);
        i += 1;
        assert(s@ =~= head + rows_text(g@, w as int, i as int));
    }
    push_rule(&mut s, w);
    assert(s@ =~= board_text(g@, l as int, w as int));
    s
}

} // verus!
