//! Which names are those of archive files.

use vstd::prelude::*;

use crate::fs::naming;
use crate::fs::naming::ParsedArchiveNameView;
use crate::notation;
use crate::text;

verus! {

/// Whether there is no dash in a text.
pub open spec fn no_dash(s: Seq<char>) -> bool {
    forall|i: int| 0 <= i < s.len() ==> #[trigger] s[i] != '-'
}

/// The name of an archive file: the network, the era number and the root with a
/// dash between, and the extension after a dot.
pub open spec fn archive_name(
    network: Seq<char>,
    number: Seq<char>,
    root: Seq<char>,
    extension: Seq<char>,
) -> Seq<char> {
    network + "-"@ + number + "-"@ + root + "."@ + extension
}

/// A name that is parsed is made of what it is parsed into: the network, a
/// numeral for the era number, the root and the extension, which is `era` or
/// `era1`. There is no dash in the numeral and the root.
#[verifier::spinoff_prover]
#[verifier::rlimit(60)]
pub proof fn parsed_name_made(name: Seq<char>)
    requires
        naming::parsed_name(name) is Some,
    ensures
        ({
            let p = naming::parsed_name(name)->Some_0;
            &&& p.extension == "era"@ || p.extension == "era1"@
            &&& no_dash(p.root_hex)
            &&& exists|number: Seq<char>|
                name == #[trigger] archive_name(p.network, number, p.root_hex, p.extension)
                    && no_dash(number) && naming::numeral(number) == Some(p.era_number)
        }),
{
    let p = naming::parsed_name(name)->Some_0;
    if naming::ends_with(name, ".era"@) {
        let stem = name.take(name.len() - 4);
        let number = lemma_stem_made(stem, "era"@);
        assert(name =~= stem + ".era"@) by {
            reveal_strlit(".era");
            assert(name.skip(name.len() - 4) == ".era"@);
        }
        lemma_dotted(stem, ".era"@, "era"@);
        assert(name == archive_name(p.network, number, p.root_hex, p.extension));
    } else {
        let stem = name.take(name.len() - 5);
        let number = lemma_stem_made(stem, "era1"@);
        assert(name =~= stem + ".era1"@) by {
            reveal_strlit(".era1");
            assert(name.skip(name.len() - 5) == ".era1"@);
        }
        lemma_dotted(stem, ".era1"@, "era1"@);
        assert(name == archive_name(p.network, number, p.root_hex, p.extension));
    }
}

/// The two extensions follow a dot.
proof fn lemma_dotted(stem: Seq<char>, tail: Seq<char>, extension: Seq<char>)
    requires
        (tail == ".era"@ && extension == "era"@) || (tail == ".era1"@ && extension == "era1"@),
    ensures
        stem + tail == stem + "."@ + extension,
{
    reveal_strlit(".era");
    reveal_strlit(".era1");
    reveal_strlit("era");
    reveal_strlit("era1");
    reveal_strlit(".");
    assert(tail =~= "."@ + extension);
    assert(stem + tail =~= stem + "."@ + extension);
}

/// What a name without its extension is made of.
#[verifier::spinoff_prover]
proof fn lemma_stem_made(stem: Seq<char>, extension: Seq<char>) -> (number: Seq<char>)
    requires
        naming::parsed_stem(stem, extension) is Some,
    ensures
        ({
            let p = naming::parsed_stem(stem, extension)->Some_0;
            &&& p.extension == extension
            &&& no_dash(p.root_hex)
            &&& no_dash(number)
            &&& naming::numeral(number) == Some(p.era_number)
            &&& stem == p.network + "-"@ + number + "-"@ + p.root_hex
        }),
{
    let p = naming::parsed_stem(stem, extension)->Some_0;
    let second = naming::last_dash(stem, stem.len() as int);
    let first = naming::last_dash(stem, second);
    lemma_dash(stem, stem.len() as int);
    lemma_dash(stem, second);
    let number = stem.subrange(first + 1, second);
    assert forall|i: int| 0 <= i < number.len() implies #[trigger] number[i] != '-' by {
        assert(number[i] == stem[first + 1 + i]);
    }
    assert forall|i: int| 0 <= i < p.root_hex.len() implies #[trigger] p.root_hex[i] != '-' by {
        assert(p.root_hex[i] == stem[second + 1 + i]);
    }
    lemma_parts(stem, first, second);
    number
}

/// A text is its parts around two dashes.
proof fn lemma_parts(stem: Seq<char>, first: int, second: int)
    requires
        0 <= first < second < stem.len(),
        stem[first] == '-',
        stem[second] == '-',
    ensures
        stem == stem.take(first) + "-"@ + stem.subrange(first + 1, second) + "-"@ + stem.skip(
            second + 1,
        ),
{
    reveal_strlit("-");
    assert(stem =~= stem.take(first) + "-"@ + stem.subrange(first + 1, second) + "-"@ + stem.skip(
        second + 1,
    ));
}

proof fn lemma_dash(s: Seq<char>, n: int)
    requires
        n <= s.len(),
    ensures
        -1 <= naming::last_dash(s, n),
        n >= 0 ==> naming::last_dash(s, n) < n,
        naming::last_dash(s, n) >= 0 ==> s[naming::last_dash(s, n)] == '-',
        forall|i: int| naming::last_dash(s, n) < i < n && 0 <= i ==> #[trigger] s[i] != '-',
    decreases n,
{
    if n > 0 && s[n - 1] != '-' {
        lemma_dash(s, n - 1);
    }
}

/// A name that is made of a network, a numeral, a root without a dash and one of
/// the two extensions is parsed into these.
#[verifier::spinoff_prover]
#[verifier::rlimit(60)]
pub proof fn archive_name_parsed(
    network: Seq<char>,
    number: Seq<char>,
    root: Seq<char>,
    extension: Seq<char>,
)
    requires
        naming::numeral(number) is Some,
        no_dash(root),
        extension == "era"@ || extension == "era1"@,
    ensures
        naming::parsed_name(archive_name(network, number, root, extension)) == Some(
            ParsedArchiveNameView {
                network,
                era_number: naming::numeral(number)->Some_0,
                root_hex: root,
                extension,
            },
        ),
{
    reveal_strlit(".era");
    reveal_strlit(".era1");
    reveal_strlit("era");
    reveal_strlit("era1");
    reveal_strlit("-");
    reveal_strlit(".");
    let name = archive_name(network, number, root, extension);
    let stem = network + "-"@ + number + "-"@ + root;
    let first = network.len() as int;
    let second = first + 1 + number.len();
    assert(name =~= stem + "."@ + extension);
    assert forall|i: int| 0 <= i < number.len() implies #[trigger] number[i] != '-' by {
        let digits = if number[0] == '+' {
            number.skip(1)
        } else {
            number
        };
        if number[0] == '+' {
            if i > 0 {
                assert(digits[i - 1] == number[i]);
            }
        } else {
            assert(digits[i] == number[i]);
        }
    }
    assert forall|i: int| second < i < stem.len() implies #[trigger] stem[i] != '-' by {
        assert(stem[i] == root[i - second - 1]);
    }
    assert forall|i: int| first < i < second implies #[trigger] stem[i] != '-' by {
        assert(stem[i] == number[i - first - 1]);
    }
    assert(stem[first] == '-');
    assert(stem[second] == '-');
    naming::lemma_last_dash_at(stem, stem.len() as int, second);
    naming::lemma_last_dash_at(stem, second, first);
    assert(stem.subrange(first + 1, second) =~= number);
    assert(stem.take(first) =~= network);
    assert(stem.skip(second + 1) =~= root);
    if extension == "era"@ {
        assert(name.skip(name.len() - 4) =~= ".era"@);
        assert(name.take(name.len() - 4) =~= stem);
    } else {
        assert(name.skip(name.len() - 4)[3] == '1');
        assert(!naming::ends_with(name, ".era"@)) by {
            assert(".era"@[3] == 'a');
        }
        assert(name.skip(name.len() - 5) =~= ".era1"@);
        assert(name.take(name.len() - 5) =~= stem);
    }
}

/// A name with neither extension is not parsed.
pub proof fn other_names(name: Seq<char>)
    requires
        name.len() < 5 || !(name.skip(name.len() - 4) == seq!['.', 'e', 'r', 'a'] || name.skip(
            name.len() - 5,
        ) == seq!['.', 'e', 'r', 'a', '1']),
    ensures
        naming::parsed_name(name) is None,
{
    reveal_strlit(".era");
    reveal_strlit(".era1");
    assert(".era"@ =~= seq!['.', 'e', 'r', 'a']);
    assert(".era1"@ =~= seq!['.', 'e', 'r', 'a', '1']);
    if name.len() < 5 && naming::ends_with(name, ".era"@) {
        let stem = name.take(name.len() - 4);
        assert(stem.len() == 0);
    }
}

/// The name of an ERA file has the network, the era number with zeros in front up
/// to five digits, and the four bytes of the root in hexadecimal notation.
#[verifier::spinoff_prover]
#[verifier::rlimit(60)]
pub proof fn era_name_layout(network: Seq<char>, era_number: u64, root_prefix: [u8; 4])
    ensures
        exists|number: Seq<char>|
            naming::era_name(network, era_number, root_prefix) == #[trigger] archive_name(
                network,
                number,
                text::hex_text(root_prefix@),
                "era"@,
            ) && naming::numeral(number) == Some(era_number) && number.len() >= 5 && (era_number
                < 100000 ==> number.len() == 5) && (era_number >= 100000 ==> number[0] != '0'),
{
    let number = text::dec_padded(era_number as nat, 5);
    naming::padded_numeral(era_number, 5);
    notation::filled_notation(era_number as nat, 5);
    notation::decimal_notation(era_number as nat);
    lemma_dec_len(era_number as nat);
    reveal_strlit(".era");
    reveal_strlit("era");
    reveal_strlit(".");
    let r = root_prefix@;
    let root = text::hex_text(r);
    assert(root =~= text::hex_byte(r[0]) + text::hex_byte(r[1]) + text::hex_byte(r[2])
        + text::hex_byte(r[3])) by {
        reveal_with_fuel(text::hex_text, 5);
        assert(r.drop_last().drop_last().drop_last().drop_last() =~= Seq::empty());
    }
    let front = network + "-"@ + number + "-"@;
    assert(".era"@ =~= "."@ + "era"@);
    assert(naming::era_name(network, era_number, root_prefix) =~= front + root + "."@ + "era"@);
    assert(naming::era_name(network, era_number, root_prefix) =~= archive_name(
        network,
        number,
        root,
        "era"@,
    ));
}

/// Numbers up to five digits.
proof fn lemma_dec_len(n: nat)
    ensures
        n < 100000 ==> text::dec(n).len() <= 5,
        n >= 100000 ==> text::dec(n).len() > 5,
{
    reveal_with_fuel(text::dec, 7);
    if n >= 100000 {
        notation::decimal_notation(n / 100000);
        let a = n / 10;
        let b = a / 10;
        let c = b / 10;
        let d = c / 10;
        let e = d / 10;
        assert(e == n / 100000);
        assert(text::dec(e).len() >= 1);
    }
}

} // verus!
