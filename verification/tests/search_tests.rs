use word_search_solver::board::{Board, Direction, SearchState, WordPosition};
use word_search_solver::trie::Trie;

fn board_of(rows: &[&str]) -> Board {
    let letters: Vec<Vec<char>> = rows.iter().map(|row| row.chars().collect()).collect();
    Board::new(&letters)
}

fn trie_of(words: &[&str]) -> Trie {
    let mut trie = Trie::new();
    trie.insert_words(&words.to_vec());
    trie
}

/// Runs the automaton by hand: validation and transition in turn.
fn run_by_hand(board: &Board, trie: &Trie) -> (Vec<(WordPosition, Direction, i32)>, usize) {
    let mut state = SearchState::new();
    let mut hits = Vec::new();
    let mut steps = 0;
    loop {
        if let Some(span) = board.check_state(&mut state, trie) {
            hits.push((span, state.direction, state.distance));
        }
        steps += 1;
        match board.next_state(&state, state.feasible) {
            Some(next) => state = next,
            None => return (hits, steps),
        }
    }
}

#[test]
fn three_by_three_scenario() {
    let board = board_of(&["abc", "def", "ghi"]);
    let trie = trie_of(&["abc", "adg", "ghi"]);
    let (words, spans) = board.find_words(&trie);
    let abc = words.iter().position(|w| w == "abc").unwrap();
    assert_eq!(spans[abc], WordPosition::new((0, 0), (0, 2)).to_1d(3));
    let adg = words.iter().position(|w| w == "adg").unwrap();
    assert_eq!(spans[adg], WordPosition::new((0, 0), (2, 0)).to_1d(3));
    // From the first cell no ray spells the third word.
    let mut found = Vec::new();
    let mut found_idx = Vec::new();
    let mut last = (0, 0);
    board.get_all_possible_word(0, 0, &mut found, &mut found_idx, &board, &trie, &mut last);
    assert_eq!(found, vec!["adg", "abc"]);
    assert_eq!(found_idx, vec![(0, 6), (0, 2)]);
    // Along the bottom row one does.
    assert_eq!(words, vec!["adg", "abc", "ghi"]);
    assert_eq!(spans, vec![(0, 6), (0, 2), (6, 8)]);
}

#[test]
fn five_by_five_scenario() {
    let board = board_of(&["abcde", "fghij", "klmno", "pqrst", "uvwxy"]);
    let trie = trie_of(&["nsx", "nrv", "nid", "nmlk"]);
    let (words, spans) = board.find_words(&trie);
    assert_eq!(words, vec!["nid", "nsx", "nmlk", "nrv"]);
    assert_eq!(spans, vec![(13, 3), (13, 23), (13, 10), (13, 21)]);
}

#[test]
fn the_run_and_the_scan_agree() {
    let board = board_of(&["abcde", "fghij", "klmno", "pqrst", "uvwxy"]);
    let trie = trie_of(&["nsx", "nrv", "nid", "nmlk", "a", "yxw", "gmsy", "eimqu", "zzz"]);
    let scanned = board.find_words(&trie);
    let stepped = board.find_words_stepwise(&trie);
    assert_eq!(scanned, stepped);
    assert_eq!(scanned.0.len(), 15);
    // the single letter is found once for each of the eight directions
    assert_eq!(scanned.0.iter().filter(|w| w.as_str() == "a").count(), 8);
    assert_eq!(scanned.1[0], (0, 0));
    assert!(scanned.0.contains(&"eimqu".to_string()));
    assert!(scanned.1.contains(&(4, 20)));
    assert!(!scanned.0.contains(&"zzz".to_string()));

    let board = board_of(&["abc", "def", "ghi"]);
    let trie = trie_of(&["abc", "adg", "ghi"]);
    assert_eq!(board.find_words(&trie), board.find_words_stepwise(&trie));
}

#[test]
fn the_run_goes_on_past_a_word_and_the_scan_does_not() {
    let board = board_of(&["cats"]);
    let trie = trie_of(&["cat", "cats"]);
    let (words, spans) = board.find_words(&trie);
    assert_eq!(words, vec!["cat"]);
    assert_eq!(spans, vec![(0, 2)]);
    let (words, spans) = board.find_words_stepwise(&trie);
    assert_eq!(words, vec!["cat", "cats"]);
    assert_eq!(spans, vec![(0, 2), (0, 3)]);
}

#[test]
fn the_empty_dictionary_finds_nothing() {
    let board = board_of(&["abc", "def"]);
    let trie = Trie::new();
    assert_eq!(board.find_words(&trie), (vec![], vec![]));
    assert_eq!(board.find_words_stepwise(&trie), (vec![], vec![]));
    let trie = trie_of(&["xyz", ""]);
    assert_eq!(board.find_words(&trie), (vec![], vec![]));
    assert_eq!(board.find_words_stepwise(&trie), (vec![], vec![]));
}

#[test]
fn the_run_ends_within_its_bound() {
    for (rows, words) in [
        (vec!["abc", "def", "ghi"], vec!["abc", "adg", "ghi"]),
        (vec!["abcde", "fghij", "klmno", "pqrst", "uvwxy"], vec!["nsx", "nrv", "nid", "nmlk"]),
        (vec!["aaaa", "aaaa"], vec!["aaaa", "aa"]),
        (vec!["a"], vec!["a"]),
        (vec!["ab"], vec![]),
    ] {
        let board = board_of(&rows);
        let trie = trie_of(&words);
        let (_, steps) = run_by_hand(&board, &trie);
        let (r, c) = (board.get_rows(), board.get_cols());
        assert!(steps <= r * c * 8 * (r.max(c) + 1));
        assert!(steps >= r * c * 8);
    }
    // every ray of a grid of one letter, with that letter a word: two ticks
    // for each direction, the second on a ray that is off the grid
    let (hits, steps) = run_by_hand(&board_of(&["a"]), &trie_of(&["a"]));
    assert_eq!(hits.len(), 8);
    assert_eq!(steps, 8);
    let (_, steps) = run_by_hand(&board_of(&["ab"]), &trie_of(&["ab"]));
    // (0,0): seven directions of one tick, Right of two; (0,1): all eight of one
    assert_eq!(steps, 7 + 2 + 8);
}

#[test]
fn validation_step_by_step() {
    let board = board_of(&["abc", "def", "ghi"]);
    let trie = trie_of(&["abc", "adg", "ghi"]);

    // off the board: the state stays as it is
    let mut state = SearchState::from((0, 0), Direction::Up, 1);
    assert_eq!(board.check_state(&mut state, &trie), None);
    assert_eq!(state, SearchState::from((0, 0), Direction::Up, 1));
    state.feasible = false;
    assert_eq!(board.check_state(&mut state, &trie), None);
    assert!(!state.feasible);

    // a prefix with room to grow
    let mut state = SearchState::from((0, 0), Direction::Right, 1);
    assert_eq!(board.check_state(&mut state, &trie), None);
    assert!(state.feasible);
    assert_eq!((state.position, state.direction, state.distance), ((0, 0), Direction::Right, 1));

    // a word at the edge: a match, and no room to grow
    let mut state = SearchState::from((0, 0), Direction::Right, 2);
    assert_eq!(
        board.check_state(&mut state, &trie),
        Some(WordPosition::new((0, 0), (0, 2)))
    );
    assert!(!state.feasible);

    // no prefix
    let mut state = SearchState::from((0, 0), Direction::DownRight, 1);
    assert_eq!(board.check_state(&mut state, &trie), None);
    assert!(!state.feasible);

    // a single letter that is a prefix, at a corner, pointing outward
    let mut state = SearchState::from((2, 0), Direction::Down, 0);
    assert_eq!(board.check_state(&mut state, &trie), None);
    assert!(!state.feasible);
    let mut state = SearchState::from((2, 0), Direction::Right, 0);
    assert_eq!(board.check_state(&mut state, &trie), None);
    assert!(state.feasible);
}

#[test]
fn a_word_with_room_to_grow_stays_feasible() {
    let board = board_of(&["cats"]);
    let trie = trie_of(&["cat"]);
    let mut state = SearchState::from((0, 0), Direction::Right, 2);
    assert_eq!(
        board.check_state(&mut state, &trie),
        Some(WordPosition::new((0, 0), (0, 2)))
    );
    assert!(state.feasible);
}

#[test]
fn an_empty_ray_is_never_a_match() {
    let board = board_of(&["abc"]);
    let trie = trie_of(&["", "a"]);
    let mut state = SearchState::from((0, 0), Direction::Right, -1);
    assert_eq!(board.check_state(&mut state, &trie), None);
    assert!(state.feasible);
    assert_eq!(
        board.next_state(&state, state.feasible),
        Some(SearchState::from((0, 0), Direction::Right, 0))
    );
    let mut state = SearchState::from((0, 5), Direction::Right, -1);
    assert_eq!(board.check_state(&mut state, &trie), None);
    assert!(!state.feasible);
}

#[test]
fn transition_step_by_step() {
    let board = board_of(&["abc", "def", "ghi"]);

    // the ray fits and is feasible: one cell longer
    let state = SearchState::from((0, 0), Direction::Right, 1);
    assert_eq!(
        board.next_state(&state, true),
        Some(SearchState::from((0, 0), Direction::Right, 2))
    );
    // the ray fits and is not feasible: the next direction
    assert_eq!(
        board.next_state(&state, false),
        Some(SearchState::from((0, 0), Direction::UpRight, 0))
    );
    // the ray does not fit: the next direction, feasible or not
    let state = SearchState::from((0, 0), Direction::Up, 1);
    assert_eq!(
        board.next_state(&state, true),
        Some(SearchState::from((0, 0), Direction::Down, 0))
    );
    assert_eq!(
        board.next_state(&state, false),
        Some(SearchState::from((0, 0), Direction::Down, 0))
    );
    // after the last direction: the next cell
    let state = SearchState::from((0, 2), Direction::DownRight, 0);
    assert_eq!(
        board.next_state(&state, false),
        Some(SearchState::from((1, 0), Direction::Up, 0))
    );
    let state = SearchState::from((1, 1), Direction::DownRight, 2);
    assert_eq!(
        board.next_state(&state, true),
        Some(SearchState::from((1, 2), Direction::Up, 0))
    );
    // after the last direction of the last cell: nothing
    let state = SearchState::from((2, 2), Direction::DownRight, 0);
    assert_eq!(board.next_state(&state, false), None);
    let state = SearchState::from((2, 2), Direction::DownRight, 1);
    assert_eq!(board.next_state(&state, true), None);
    // the new state is feasible whatever the old one was
    let mut state = SearchState::from((2, 2), Direction::DownLeft, 0);
    state.feasible = false;
    assert_eq!(
        board.next_state(&state, false),
        Some(SearchState::from((2, 2), Direction::DownRight, 0))
    );
}

#[test]
fn the_run_visits_each_ray_in_order() {
    let board = board_of(&["ab"]);
    let trie = trie_of(&["ab", "ba"]);
    let (hits, _) = run_by_hand(&board, &trie);
    assert_eq!(
        hits,
        vec![
            (WordPosition::new((0, 0), (0, 1)), Direction::Right, 1),
            (WordPosition::new((0, 1), (0, 0)), Direction::Left, 1),
        ]
    );
    let (words, spans) = board.find_words_stepwise(&trie);
    assert_eq!(words, vec!["ab", "ba"]);
    assert_eq!(spans, vec![(0, 1), (1, 0)]);
}

#[test]
fn a_match_ends_on_the_board() {
    let board = board_of(&["abc", "def", "ghi"]);
    let trie = trie_of(&["abc", "cfi", "ie", "g"]);
    let (hits, _) = run_by_hand(&board, &trie);
    assert_eq!(hits.len(), 3 + 8);
    for (span, direction, distance) in hits {
        assert_eq!(
            board.get_pos_from_direction(span.start.0, span.start.1, &direction, distance),
            Some(span.end)
        );
        assert!(span.end.0 < 3 && span.end.1 < 3);
    }
}

#[test]
fn the_first_word_along_a_ray_is_the_shortest_word_on_it() {
    // the scan gives up a ray whose letters are no prefix: that loses no word
    let board = board_of(&["abcde"]);
    for words in [
        vec!["abc"],
        vec!["abc", "abcde"],
        vec!["abcde"],
        vec!["a", "abcd"],
        vec!["b", "bcd", "edc"],
        vec!["abx", "abcdef"],
        vec![],
    ] {
        let trie = trie_of(&words);
        let mut found = Vec::new();
        let mut found_idx = Vec::new();
        let mut last = (0, 0);
        board.get_all_possible_word(0, 0, &mut found, &mut found_idx, &board, &trie, &mut last);
        let shortest = (0..5)
            .map(|n| board.get_string_from_direction(0, 0, &Direction::Right, n).unwrap())
            .find(|text| words.contains(&text.as_str()));
        let on_the_ray: Vec<String> = found
            .iter()
            .zip(&found_idx)
            .filter(|(_, span)| span.1 > 0)
            .map(|(word, _)| word.clone())
            .collect();
        match shortest {
            Some(word) if word.len() > 1 => assert_eq!(on_the_ray, vec![word]),
            _ => assert!(on_the_ray.is_empty()),
        }
    }
}
