//! The diagnostic listing of a table file.
use vstd::prelude::*;
use vstd::string::*;
use crate::rainbow::chain::{chain_views, ChainView};
use crate::rainbow::codec::{parse_rainbow, parsed, TableView, VERSION};
use crate::rainbow::error::{RainbowError, RainbowFault};
use crate::text::{decimal, decimal_text, shown_text, text_from_utf8_lossy};

verus! {

/// The lines of a list as sequences of characters.
pub open spec fn line_views(lines: Seq<String>) -> Seq<Seq<char>> {
    Seq::new(lines.len(), |i: int| lines[i]@)
}

/// The line of a chain: start and end as text, a tab between them. A start
/// or an end that is well-formed UTF-8 shows as the characters it encodes.
pub open spec fn chain_line(chain: ChainView) -> Seq<char> {
    shown_text(chain.start) + "\t"@ + shown_text(chain.end)
}

/// The lines that describe the header of a table.
pub open spec fn header_lines(table: TableView) -> Seq<Seq<char>> {
    seq![
        "Hashassin Rainbow Table"@,
        "VERSION: "@ + decimal_text(VERSION as nat),
        "ALGORITHM: "@ + table.rule.algorithm.canonical_name(),
        "PASSWORD LENGTH: "@ + decimal_text(table.rule.password_length as nat),
        "CHAR SET SIZE: "@ + decimal_text(table.rule.charset_size as nat),
        "NUM LINKS: "@ + decimal_text(table.num_links as nat),
        "ASCII OFFSET: "@ + decimal_text(table.rule.unicode_offset as nat),
    ]
}

/// The listing of a table: the header lines, then one line for each chain.
pub open spec fn dump_lines(table: TableView) -> Seq<Seq<char>> {
    header_lines(table) + Seq::new(table.chains.len(), |i: int| chain_line(table.chains[i]))
}

/// Lists a table file: what its header says, then each complete chain
/// record as `start<TAB>end`. A record cut short at the end of the file is
/// left out; a header that is refused fails the listing.
pub fn dump_rainbow_table(bytes: &[u8]) -> (res: Result<Vec<String>, RainbowError>)
    ensures
        match res {
            Ok(lines) => parsed(bytes@) is Ok && line_views(lines@) == dump_lines(
                parsed(bytes@)->Ok_0,
            ),
            Err(e) => parsed(bytes@) == Err::<TableView, RainbowFault>(e@),
        },
{
    let table = parse_rainbow(bytes)?;
    let mut lines: Vec<String> = Vec::new();
    lines.push(String::from_str("Hashassin Rainbow Table"));
    lines.push(String::from_str("VERSION: ").concat(decimal(VERSION as u128).as_str()));
    lines.push(String::from_str("ALGORITHM: ").concat(table.rule.algorithm.name()));
    lines.push(
        String::from_str("PASSWORD LENGTH: ").concat(
            decimal(table.rule.password_length as u128).as_str(),
        ),
    );
    lines.push(String::from_str("CHAR SET SIZE: ").concat(decimal(table.rule.charset_size).as_str()));
    lines.push(String::from_str("NUM LINKS: ").concat(decimal(table.num_links).as_str()));
    lines.push(
        String::from_str("ASCII OFFSET: ").concat(decimal(table.rule.unicode_offset).as_str()),
    );
    let ghost view = table@;
    assert(line_views(lines@) =~= header_lines(view));
    let mut i: usize = 0;
    while i < table.chains.len()
        invariant
            i <= table.chains@.len(),
            view == table@,
            line_views(lines@) =~= header_lines(view) + Seq::new(
                i as nat,
                |k: int| chain_line(view.chains[k]),
            ),
        decreases table.chains@.len() - i,
    {
        let ghost before = line_views(lines@);
        let line = text_from_utf8_lossy(table.chains[i].start.as_slice()).concat("\t").concat(
            text_from_utf8_lossy(table.chains[i].end.as_slice()).as_str(),
        );
        assert(view.chains[i as int] == table.chains@[i as int]@);
        assert(line@ == chain_line(view.chains[i as int]));
        lines.push(line);
        assert(line_views(lines@) =~= before.push(line@));
        i += 1;
    }
    assert(line_views(lines@) =~= dump_lines(view));
    Ok(lines)
}

} // verus!
