use gamma_tables::error::LatticeError;
use gamma_tables::lattice::{find_data_start, find_size, parse_lattice};
use gamma_tables::sampler::{lattice_tables, sample_axes, sample_axis, Channel};

fn unit_cube() -> String {
    let mut text = String::from("TITLE \"corners\"\nLUT_3D_SIZE 2\n");
    for i in 0..8 {
        text.push_str(&format!("{} {} {}\n", i & 1, (i >> 1) & 1, (i >> 2) & 1));
    }
    text
}

fn falling_ramp() -> Vec<u16> {
    let mut table: Vec<u16> = (0..255u32).map(|a| ((255 - a) * 257) as u16).collect();
    table.push(65535);
    table
}

#[test]
fn unit_cube_is_sampled_along_each_axis() {
    let tables = lattice_tables(&unit_cube()).unwrap();
    assert_eq!(tables.len(), 3);
    for table in &tables {
        assert_eq!(table.len(), 256);
    }
    assert_eq!(tables, vec![falling_ramp(), falling_ramp(), falling_ramp()]);
}

#[test]
fn red_is_read_from_the_first_two_cells_only() {
    let text = "LUT_3D_SIZE 2\n0.25 9 9\n0.75 9 9\n9 9 9\n9 9 9\n9 9 9\n9 9 9\n9 9 9\n9 9 9\n";
    let lattice = parse_lattice(text).unwrap();
    let red = sample_axis(&lattice, Channel::Red);
    assert_eq!(red.len(), 256);
    for a in 0..255u32 {
        // 257 * (a * 0.25 + (255 - a) * 0.75), a half rounded upward
        let quarters = 257 * (a + 3 * (255 - a));
        assert_eq!(red[a as usize] as u32, (quarters + 2) / 4, "entry {}", a);
    }
    assert_eq!(red[255], 49151);
}

#[test]
fn the_fraction_weighs_the_lower_cell() {
    let text = "LUT_3D_SIZE 2\n0 0 0\n1 0 0\n0 1 0\n1 1 0\n0 0 1\n1 0 1\n0 1 1\n1 1 1\n";
    let red = sample_axis(&parse_lattice(text).unwrap(), Channel::Red);
    // On a rising axis the table starts at the upper cell's value and falls
    // toward the lower one; the last entry lies on the upper cell again.
    assert_eq!(red[0], 65535);
    assert_eq!(red[1], 65278);
    assert_eq!(red[128], 32639);
    assert_eq!(red[254], 257);
    assert_eq!(red[255], 65535);
}

#[test]
fn ends_lie_on_cells() {
    let mut text = String::from("LUT_3D_SIZE 3\n");
    for b in 0..3 {
        for g in 0..3 {
            for r in 0..3 {
                text.push_str(&format!("0.{}1 0.{}2 0.{}3\n", r + 1, g + 4, b + 7));
            }
        }
    }
    let tables = lattice_tables(&text).unwrap();
    // entry 0: lower cell 0, fraction 0, so the whole weight is on cell 1
    assert_eq!(tables[0][0], 13762);
    assert_eq!(tables[1][0], 34078);
    assert_eq!(tables[2][0], 54394);
    // entry 255: the last cell, whose neighbour is itself
    assert_eq!(tables[0][255], 20316);
    assert_eq!(tables[1][255], 40632);
    assert_eq!(tables[2][255], 60948);
    // entry 64 lies 128/255 of the way from cell 0 to cell 1
    assert_eq!(tables[0][64], 10473);
}

#[test]
fn level_axes_give_level_tables() {
    let mut text = String::from("LUT_3D_SIZE 3\n");
    for _ in 0..27 {
        text.push_str("0.5 0.25 1.0\n");
    }
    let lattice = parse_lattice(&text).unwrap();
    let tables = sample_axes(&lattice);
    assert_eq!(tables[0], vec![32768u16; 256]);
    assert_eq!(tables[1], vec![16384u16; 256]);
    assert_eq!(tables[2], vec![65535u16; 256]);
    for table in &tables {
        assert!(table.windows(2).all(|w| w[0] <= w[1]));
    }
}

#[test]
fn same_text_gives_same_tables() {
    let text = unit_cube();
    assert_eq!(lattice_tables(&text), lattice_tables(&text));
}

#[test]
fn missing_directive_is_reported() {
    let text = "TITLE \"none\"\n0 0 0\n1 1 1\n";
    assert_eq!(lattice_tables(text), Err(LatticeError::DirectiveMissing));
    assert_eq!(lattice_tables(""), Err(LatticeError::DirectiveMissing));
    assert_eq!(lattice_tables("LUT_3D_SIZE\n"), Err(LatticeError::DirectiveMissing));
    assert_eq!(lattice_tables("LUT_3D_SIZEx 1\n0 0 0\n"), Err(LatticeError::DirectiveMissing));
    assert_eq!(lattice_tables("LUT_3D_SIZE2\n0 0 0\n"), Err(LatticeError::DirectiveMissing));
}

#[test]
fn wrong_counts_are_reported() {
    let seven = "LUT_3D_SIZE 2\n0 0 0\n1 0 0\n0 1 0\n1 1 0\n0 0 1\n1 0 1\n0 1 1\n";
    assert_eq!(lattice_tables(seven), Err(LatticeError::CountMismatch));
    let leftover = format!("{}0.5\n", unit_cube());
    assert_eq!(lattice_tables(&leftover), Err(LatticeError::CountMismatch));
    let nine = format!("{}0 0 0\n", unit_cube());
    assert_eq!(lattice_tables(&nine), Err(LatticeError::CountMismatch));
    assert_eq!(lattice_tables("LUT_3D_SIZE 0\n"), Err(LatticeError::CountMismatch));
    assert_eq!(lattice_tables("LUT_3D_SIZE 1\n"), Err(LatticeError::CountMismatch));
    assert_eq!(
        lattice_tables("LUT_3D_SIZE 99999999999999999999999999\n0 0 0\n"),
        Err(LatticeError::CountMismatch)
    );
}

#[test]
fn single_cell_lattice() {
    let tables = lattice_tables("LUT_3D_SIZE 1\n0.5 0.1 0\n").unwrap();
    assert_eq!(tables[0], vec![32768u16; 256]);
    assert_eq!(tables[1], vec![6554u16; 256]);
    assert_eq!(tables[2], vec![0u16; 256]);
}

#[test]
fn heading_is_passed_over() {
    let text = "# made 2020 01 02\nTITLE \"x\"\r\nDOMAIN_MIN 0.0 0.0 0.0\r\nDOMAIN_MAX 1.0 1.0 1.0\r\n\
                LUT_3D_SIZE 1\r\n\r\n  0.5\t0.25 1\r\n";
    let chars: Vec<char> = text.chars().collect();
    assert_eq!(find_size(&chars), Some(1));
    assert_eq!(find_data_start(&chars), text.find("  0.5").unwrap());
    let tables = lattice_tables(text).unwrap();
    assert_eq!(tables[0][0], 32768);
    assert_eq!(tables[1][17], 16384);
    assert_eq!(tables[2][255], 65535);
}

#[test]
fn words_that_are_no_numbers_are_dropped() {
    let text = "LUT_3D_SIZE 1\n0.5 0.25 1 # first\nend\n";
    let lattice = parse_lattice(text).unwrap();
    assert_eq!(lattice.size, 1);
    assert_eq!(lattice.values.len(), 3);
    let text = "LUT_3D_SIZE 1\n0.5 0.25 1 # cell 1\n";
    assert_eq!(lattice_tables(text), Err(LatticeError::CountMismatch));
}

#[test]
fn first_directive_counts() {
    let chars: Vec<char> = "x LUT_3D_SIZE a LUT_3D_SIZE \t 007 LUT_3D_SIZE 9".chars().collect();
    assert_eq!(find_size(&chars), Some(7));
    let chars: Vec<char> = "LUT_3D_SIZE 2999999".chars().collect();
    assert_eq!(find_size(&chars), Some(2999999));
    let chars: Vec<char> = "LUT_3D_SIZE 3000001".chars().collect();
    assert_eq!(find_size(&chars), Some(3000000));
}

#[test]
fn data_begin_at_a_line_with_three_numbers() {
    let text = "LUT_3D_SIZE 2 0 0\n1 2\n 1 2 x\n1 2 3\n";
    let chars: Vec<char> = text.chars().collect();
    assert_eq!(find_data_start(&chars), text.find("1 2 3").unwrap());
    let chars: Vec<char> = "a b c\n1 2\n3".chars().collect();
    assert_eq!(find_data_start(&chars), chars.len());
}

#[test]
fn numbers_of_any_size_count() {
    let tables = lattice_tables("LUT_3D_SIZE 1\n1e1001 -1e1001 1e-1001\n").unwrap();
    assert_eq!(tables[0], vec![65535u16; 256]);
    assert_eq!(tables[1], vec![0u16; 256]);
    assert_eq!(tables[2], vec![0u16; 256]);
    let tables = lattice_tables("LUT_3D_SIZE 1\ninf nan -Infinity\n").unwrap();
    assert_eq!(tables[0], vec![65535u16; 256]);
    assert_eq!(tables[1], vec![0u16; 256]);
    assert_eq!(tables[2], vec![0u16; 256]);
    let text = "LUT_3D_SIZE 1\n0.5 0.25 1 inf\n";
    assert_eq!(lattice_tables(text), Err(LatticeError::CountMismatch));
}

#[test]
fn entries_on_a_rising_axis_lie_between_the_end_samples() {
    let mut text = String::from("LUT_3D_SIZE 3\n");
    for b in 0..3 {
        for g in 0..3 {
            for r in 0..3 {
                text.push_str(&format!("0.{} 0.{} 0.{}\n", 1 + 4 * r, 2 + 3 * g, 3 + 3 * b));
            }
        }
    }
    let tables = lattice_tables(&text).unwrap();
    let ends: [(u16, u16); 3] = [(6554, 58982), (13107, 52428), (19661, 58982)];
    for (table, (first, last)) in tables.iter().zip(ends) {
        assert_eq!(table.len(), 256);
        assert!(table.iter().all(|&entry| first <= entry && entry <= last));
        assert_eq!(table[255], last);
    }
    // the entries themselves fall within each cell
    assert!(tables[0][1] < tables[0][0]);
}
