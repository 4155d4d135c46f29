use vstd::prelude::*;
use vstd::string::StrSliceExecFns;
use vstd::string::StringExecFns;

use crate::strutil::{dec_digits, dec_spec, push_char};

verus! {

/// What one character of a label becomes in the rendered markup.
pub open spec fn escape_char(c: char) -> Seq<char> {
    if c == '>' {
        seq!['&', 'g', 't', ';']
    } else if c == '<' {
        seq!['&', 'l', 't', ';']
    } else if c == '&' {
        seq!['&', 'a', 'm', 'p', ';']
    } else if c == '\'' {
        seq!['&', '#', '3', '9', ';']
    } else if c == '"' {
        seq!['&', 'q', 'u', 'o', 't', ';']
    } else if c == '\n' {
        seq!['<', 'b', 'r', '/', '>']
    } else {
        seq![c]
    }
}

/// A label with every markup-significant character replaced by its
/// escape, and line breaks turned into break elements.
pub open spec fn escape_text(s: Seq<char>) -> Seq<char>
    decreases s.len(),
{
    if s.len() == 0 {
        Seq::empty()
    } else {
        escape_text(s.drop_last()) + escape_char(s.last())
    }
}

/// Escape a label for the rendered markup.
pub fn escape_label(s: &str) -> (r: String)
    ensures
        r@ == escape_text(s@),
{
    let n = s.unicode_len();
    let mut out = String::new();
    let mut i: usize = 0;
    while i < n
        invariant
            0 <= i <= n,
            n == s@.len(),
            out@ == escape_text(s@.take(i as int)),
        decreases n - i,
    {
        let c = s.get_char(i);
        proof {
            assert(s@.take(i + 1).drop_last() =~= s@.take(i as int));
            assert(s@.take(i + 1).last() == s@[i as int]);
        }
        if c == '>' {
            out.append("&gt;");
            proof {
                reveal_strlit("&gt;");
                assert("&gt;"@ =~= escape_char(c));
            }
        } else if c == '<' {
            out.append("&lt;");
            proof {
                reveal_strlit("&lt;");
                assert("&lt;"@ =~= escape_char(c));
            }
        } else if c == '&' {
            out.append("&amp;");
            proof {
                reveal_strlit("&amp;");
                assert("&amp;"@ =~= escape_char(c));
            }
        } else if c == '\'' {
            out.append("&#39;");
            proof {
                reveal_strlit("&#39;");
                assert("&#39;"@ =~= escape_char(c));
            }
        } else if c == '"' {
            out.append("&quot;");
            proof {
                reveal_strlit("&quot;");
                assert("&quot;"@ =~= escape_char(c));
            }
        } else if c == '\n' {
            out.append("<br/>");
            proof {
                reveal_strlit("<br/>");
                assert("<br/>"@ =~= escape_char(c));
            }
        } else {
            push_char(&mut out, c);
            proof {
                assert(seq![c] =~= escape_char(c));
            }
        }
        proof {
            assert(out@ =~= escape_text(s@.take(i + 1)));
        }
        i += 1;
    }
    proof {
        assert(s@.take(n as int) =~= s@);
    }
    out
}

/// One table cell per argument position, each carrying its port number.
pub open spec fn port_cells(n: nat) -> Seq<char>
    decreases n,
{
    if n == 0 {
        Seq::empty()
    } else {
        port_cells((n - 1) as nat) + "<TD PORT=\""@ + dec_spec((n - 1) as nat) + "\"></TD>"@
    }
}

/// The column-span attribute of the label cell: absent for a childless node.
pub open spec fn colspan_part(n: nat) -> Seq<char> {
    if n == 0 {
        Seq::empty()
    } else {
        " colspan=\""@ + dec_spec(n) + "\""@
    }
}

/// The row of argument ports: absent for a childless node.
pub open spec fn ports_part(n: nat) -> Seq<char> {
    if n == 0 {
        Seq::empty()
    } else {
        "<TR>"@ + port_cells(n) + "</TR>"@
    }
}

/// The markup label of a node: a one-cell table holding the escaped
/// operator text, spanning the argument columns, over one port cell per
/// argument.
pub open spec fn html_label_spec(label: Seq<char>, n: nat) -> Seq<char> {
    "<<TABLE BGCOLOR=\"white\" CELLBORDER=\"0\" CELLSPACING=\"0\" CELLPADDING=\"0\" style=\"rounded\"><tr><td BALIGN=\"left\" CELLPADDING=\"4\" WIDTH=\"30\" HEIGHT=\"30\""@
        + colspan_part(n) + ">"@ + escape_text(label) + "</td></tr>"@ + ports_part(n)
        + "</TABLE>>"@
}

/// Build the markup label for a node with this operator text and this
/// many arguments.
pub fn html_label(label: &str, n_args: usize) -> (r: String)
    ensures
        r@ == html_label_spec(label@, n_args as nat),
{
    let mut out = String::new();
    out.append(
        "<<TABLE BGCOLOR=\"white\" CELLBORDER=\"0\" CELLSPACING=\"0\" CELLPADDING=\"0\" style=\"rounded\"><tr><td BALIGN=\"left\" CELLPADDING=\"4\" WIDTH=\"30\" HEIGHT=\"30\"",
    );
    if n_args > 0 {
        out.append(" colspan=\"");
        let d = dec_digits(n_args);
        out.append(d.as_str());
        out.append("\"");
        proof {
            assert(out@ =~= 
                "<<TABLE BGCOLOR=\"white\" CELLBORDER=\"0\" CELLSPACING=\"0\" CELLPADDING=\"0\" style=\"rounded\"><tr><td BALIGN=\"left\" CELLPADDING=\"4\" WIDTH=\"30\" HEIGHT=\"30\""@
                + colspan_part(n_args as nat));
        }
    }
    out.append(">");
    let esc = escape_label(label);
    out.append(esc.as_str());
    out.append("</td></tr>");
    if n_args > 0 {
        let mut cells = String::new();
        let mut i: usize = 0;
        while i < n_args
            invariant
                0 <= i <= n_args,
                cells@ == port_cells(i as nat),
            decreases n_args - i,
        {
            cells.append("<TD PORT=\"");
            let d = dec_digits(i);
            cells.append(d.as_str());
            cells.append("\"></TD>");
            proof {
                assert(cells@ =~= port_cells((i + 1) as nat));
            }
            i += 1;
        }
        out.append("<TR>");
        out.append(cells.as_str());
        out.append("</TR>");
    }
    out.append("</TABLE>>");
    proof {
        assert(out@ =~= html_label_spec(label@, n_args as nat));
    }
    out
}

} // verus!
