use json_stream::Position;

#[test]
fn test_position_default() {
    let d = Position::default();
    assert_eq!(d.segment, 0);
    assert_eq!(d.offset, 0);
}

#[test]
fn test_position_comparisons() {
    assert_eq!(
        Position {
            segment: 0,
            offset: 0
        },
        Position {
            segment: 0,
            offset: 0
        }
    );
    assert_eq!(
        Position {
            segment: 4,
            offset: 2
        },
        Position {
            segment: 4,
            offset: 2
        }
    );

    assert_ne!(
        Position {
            segment: 0,
            offset: 1
        },
        Position {
            segment: 1,
            offset: 0
        }
    );

    assert!(
        Position {
            segment: 0,
            offset: 1
        } < Position {
            segment: 0,
            offset: 2
        }
    );
    assert!(
        Position {
            segment: 0,
            offset: 1
        } < Position {
            segment: 1,
            offset: 1
        }
    );
    assert!(
        Position {
            segment: 0,
            offset: 1
        } < Position {
            segment: 1,
            offset: 0
        }
    );

    assert!(
        Position {
            segment: 0,
            offset: 1
        } <= Position {
            segment: 0,
            offset: 2
        }
    );
    assert!(
        Position {
            segment: 0,
            offset: 1
        } <= Position {
            segment: 1,
            offset: 1
        }
    );
    assert!(
        Position {
            segment: 0,
            offset: 1
        } <= Position {
            segment: 1,
            offset: 0
        }
    );
    assert!(
        Position {
            segment: 4,
            offset: 2
        } <= Position {
            segment: 4,
            offset: 2
        }
    );

    assert!(
        Position {
            segment: 1,
            offset: 1
        } > Position {
            segment: 1,
            offset: 0
        }
    );
    assert!(
        Position {
            segment: 1,
            offset: 1
        } > Position {
            segment: 0,
            offset: 1
        }
    );
    assert!(
        Position {
            segment: 1,
            offset: 1
        } > Position {
            segment: 0,
            offset: 2
        }
    );

    assert!(
        Position {
            segment: 1,
            offset: 1
        } >= Position {
            segment: 1,
            offset: 0
        }
    );
    assert!(
        Position {
            segment: 1,
            offset: 1
        } >= Position {
            segment: 0,
            offset: 1
        }
    );
    assert!(
        Position {
            segment: 1,
            offset: 1
        } >= Position {
            segment: 0,
            offset: 2
        }
    );
    assert!(
        Position {
            segment: 4,
            offset: 2
        } >= Position {
            segment: 4,
            offset: 2
        }
    );
}
