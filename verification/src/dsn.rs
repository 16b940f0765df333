//! The ODBC connection string the extraction session hands the driver.

use vstd::prelude::*;
use vstd::string::StringExecFns;

verus! {

/// The character standing for one decimal digit.
pub open spec fn digit_char(d: int) -> char {
    ((48 + d) as u8) as char
}

/// The decimal digits of `n`, most significant first.
pub open spec fn dec_chars(n: nat) -> Seq<char>
    decreases n,
{
    if n < 10 {
        seq![digit_char(n as int)]
    } else {
        dec_chars(n / 10) + seq![digit_char((n % 10) as int)]
    }
}

/// The connection string for the Vertica ODBC driver:
/// `Driver=Vertica;ServerName=<s>;Port=<p>;Database=<d>;UID=<u>[;PWD=<P>]`.
pub open spec fn dsn_chars(
    server: Seq<char>,
    port: u16,
    database: Seq<char>,
    username: Seq<char>,
    password: Option<Seq<char>>,
) -> Seq<char> {
    "Driver=Vertica;ServerName="@ + server + ";Port="@ + dec_chars(port as nat) + ";Database="@
        + database + ";UID="@ + username + (match password {
        None => Seq::<char>::empty(),
        Some(p) => ";PWD="@ + p,
    })
}

/// One decimal digit as a string slice.
fn digit_str(d: u16) -> (s: &'static str)
    requires
        d < 10,
    ensures
        s@ == seq![digit_char(d as int)],
{
    let s: &'static str = match d {
        0 => "0",
        1 => "1",
        2 => "2",
        3 => "3",
        4 => "4",
        5 => "5",
        6 => "6",
        7 => "7",
        8 => "8",
        _ => "9",
    };
    proof {
        reveal_strlit("0");
        reveal_strlit("1");
        reveal_strlit("2");
        reveal_strlit("3");
        reveal_strlit("4");
        reveal_strlit("5");
        reveal_strlit("6");
        reveal_strlit("7");
        reveal_strlit("8");
        reveal_strlit("9");
        assert(s@ =~= seq![digit_char(d as int)]);
    }
    s
}

/// Append the decimal form of `n` to `out`.
fn push_dec(out: &mut String, n: u16)
    ensures
        final(out)@ == old(out)@ + dec_chars(n as nat),
    decreases n,
{
    if n < 10 {
        out.append(digit_str(n));
        proof {
            assert(final(out)@ =~= old(out)@ + dec_chars(n as nat));
        }
    } else {
        push_dec(out, n / 10);
        out.append(digit_str(n % 10));
        proof {
            assert(final(out)@ =~= old(out)@ + dec_chars(n as nat));
        }
    }
}

/// Build the driver connection string from the session's settings.
pub fn create_dsn(
    server: String,
    port: u16,
    database: String,
    username: String,
    password: Option<String>,
) -> (r: String)
    ensures
        r@ == dsn_chars(
            server@,
            port,
            database@,
            username@,
            match password {
                None => None::<Seq<char>>,
                Some(p) => Some(p@),
            },
        ),
{
    let mut r = String::new();
    r.append("Driver=Vertica;ServerName=");
    r.append(server.as_str());
    r.append(";Port=");
    push_dec(&mut r, port);
    r.append(";Database=");
    r.append(database.as_str());
    r.append(";UID=");
    r.append(username.as_str());
    match &password {
        None => {},
        Some(p) => {
            r.append(";PWD=");
            r.append(p.as_str());
        },
    }
    proof {
        assert(r@ =~= dsn_chars(
            server@,
            port,
            database@,
            username@,
            match password {
                None => None::<Seq<char>>,
                Some(p) => Some(p@),
            },
        ));
    }
    r
}

} // verus!
