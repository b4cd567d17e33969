use stow_slots::error::FormatError;
use stow_slots::zone::SortZone;

fn zone(cluster: char, aisle: u32, level: u32, column: char) -> SortZone {
    SortZone { cluster, aisle, level, column }
}

#[test]
fn parse_reads_the_four_parts() {
    assert_eq!(SortZone::parse("A-12.3B"), Ok(zone('A', 12, 3, 'B')));
    assert_eq!(SortZone::parse("Z-0.0Z"), Ok(zone('Z', 0, 0, 'Z')));
    assert_eq!(SortZone::parse("A-1.1A"), Ok(zone('A', 1, 1, 'A')));
}

#[test]
fn parse_takes_leading_zeros_and_the_largest_aisle() {
    assert_eq!(SortZone::parse("C-007.9D"), Ok(zone('C', 7, 9, 'D')));
    assert_eq!(SortZone::parse("C-4294967295.9D"), Ok(zone('C', 4294967295, 9, 'D')));
    assert_eq!(SortZone::parse("C-0000000000004294967295.9D"), Ok(zone('C', 4294967295, 9, 'D')));
}

#[test]
fn parse_without_dash() {
    assert_eq!(SortZone::parse("A12.3B"), Err(FormatError::Dash));
    assert_eq!(SortZone::parse(""), Err(FormatError::Dash));
    assert_eq!(SortZone::parse("A"), Err(FormatError::Dash));
}

#[test]
fn parse_with_a_bad_cluster() {
    assert_eq!(SortZone::parse("AB-1.1A"), Err(FormatError::Cluster));
    assert_eq!(SortZone::parse("-1.1A"), Err(FormatError::Cluster));
    assert_eq!(SortZone::parse("a-1.1A"), Err(FormatError::Cluster));
    assert_eq!(SortZone::parse("1-1.1A"), Err(FormatError::Cluster));
    assert_eq!(SortZone::parse("É-1.1A"), Err(FormatError::Cluster));
}

#[test]
fn parse_without_dot() {
    assert_eq!(SortZone::parse("A-11A"), Err(FormatError::Dot));
    assert_eq!(SortZone::parse("A-"), Err(FormatError::Dot));
}

#[test]
fn parse_with_a_bad_aisle() {
    assert_eq!(SortZone::parse("A-.1A"), Err(FormatError::Aisle));
    assert_eq!(SortZone::parse("A-x.1A"), Err(FormatError::Aisle));
    assert_eq!(SortZone::parse("A-1x.1A"), Err(FormatError::Aisle));
    assert_eq!(SortZone::parse("A-+1.1A"), Err(FormatError::Aisle));
    assert_eq!(SortZone::parse("A--1.1A"), Err(FormatError::Aisle));
    assert_eq!(SortZone::parse("A-1-2.1A"), Err(FormatError::Aisle));
    assert_eq!(SortZone::parse("A-4294967296.1A"), Err(FormatError::Aisle));
    assert_eq!(SortZone::parse("A-99999999999999999999999999.1A"), Err(FormatError::Aisle));
}

#[test]
fn parse_with_a_bad_level_and_column() {
    assert_eq!(SortZone::parse("A-1.1"), Err(FormatError::LevelColumn));
    assert_eq!(SortZone::parse("A-1."), Err(FormatError::LevelColumn));
    assert_eq!(SortZone::parse("A-1.12A"), Err(FormatError::LevelColumn));
    assert_eq!(SortZone::parse("A-1.1AB"), Err(FormatError::LevelColumn));
    assert_eq!(SortZone::parse("A-1.1.A"), Err(FormatError::LevelColumn));
    assert_eq!(SortZone::parse("A-1.xA"), Err(FormatError::Level));
    assert_eq!(SortZone::parse("A-1.AA"), Err(FormatError::Level));
    assert_eq!(SortZone::parse("A-1.1a"), Err(FormatError::Column));
    assert_eq!(SortZone::parse("A-1.11"), Err(FormatError::Column));
}

#[test]
fn display_writes_the_code() {
    assert_eq!(zone('A', 12, 3, 'B').display(), "A-12.3B");
    assert_eq!(zone('Q', 0, 0, 'Z').display(), "Q-0.0Z");
    assert_eq!(zone('Q', 4294967295, 9, 'Z').display(), "Q-4294967295.9Z");
    assert_eq!(zone('Q', 100, 10, 'Z').display(), "Q-100.10Z");
}

#[test]
fn parse_gives_back_what_display_wrote() {
    let aisles = [0u32, 1, 9, 10, 11, 99, 100, 101, 12345, 4294967294, 4294967295];
    let letters = ['A', 'M', 'Z'];
    for aisle in aisles {
        for level in 0u32..10 {
            for cluster in letters {
                for column in letters {
                    let z = zone(cluster, aisle, level, column);
                    assert_eq!(SortZone::parse(&z.display()), Ok(z));
                }
            }
        }
    }
}

#[test]
fn format_error_messages() {
    assert_eq!(FormatError::Dash.message(), "expected format 'A-1.1A'");
    assert_eq!(FormatError::Cluster.message(), "missing cluster");
    assert_eq!(FormatError::Dot.message(), "expected format '1.1A'");
    assert_eq!(FormatError::Aisle.message(), "invalid aisle");
    assert_eq!(FormatError::LevelColumn.message(), "expected format '1A'");
    assert_eq!(FormatError::Level.message(), "invalid level");
    assert_eq!(FormatError::Column.message(), "invalid column");
    assert_eq!(FormatError::TotalHours.message(), "total hours must be positive");
}
