//! Surface grids, expansion metadata, parameter validation, and the
//! evaluation schedule.

use kifmm::schedule::{schedule, FmmOp};
use kifmm::surface::{ncoeffs, surface_grid_indices, NodeData, NodeType};
use kifmm::{validate_parameters, FmmError};

#[test]
fn test_ncoeffs_values() {
    assert_eq!(ncoeffs(2), 8);
    assert_eq!(ncoeffs(3), 26);
    assert_eq!(ncoeffs(5), 98);
    assert_eq!(ncoeffs(6), 152);
}

#[test]
fn test_surface_grid() {
    for p in 2..7usize {
        let g = surface_grid_indices(p).unwrap();
        assert_eq!(g.len(), ncoeffs(p));
        for &(i, j, k) in g.iter() {
            assert!(i < p && j < p && k < p);
            assert!(i == 0 || i == p - 1 || j == 0 || j == p - 1 || k == 0 || k == p - 1);
        }
    }
    assert_eq!(surface_grid_indices(1).err(), Some(FmmError::InvalidOrder));
    assert_eq!(surface_grid_indices(0).err(), Some(FmmError::InvalidOrder));
}

#[test]
fn test_fmm_node_data() {
    let mut data = NodeData::fmm_data();
    let order = 5;
    data.set_expansion_order(order);
}

#[test]
fn test_node_data_round_trip() {
    let mut data = NodeData::new(NodeType::Fmm);
    for order in 2..10usize {
        data.set_expansion_order(order);
        assert_eq!(data.field_size, vec![ncoeffs(order), ncoeffs(order)]);
        assert_eq!(data.displacement, vec![0, ncoeffs(order)]);
        assert_eq!(data.get_expansion_order(), order);
    }
    let d = NodeData::new(NodeType::Default);
    assert_eq!(d.field_size, vec![1]);
    assert_eq!(d.displacement, vec![0]);
}

#[test]
fn test_validate_parameters() {
    assert!(validate_parameters(2, 1, 16).is_ok());
    assert_eq!(validate_parameters(1, 1, 16).err(), Some(FmmError::InvalidConfig));
    assert_eq!(validate_parameters(2, 0, 16).err(), Some(FmmError::InvalidConfig));
    assert_eq!(validate_parameters(2, 1, 17).err(), Some(FmmError::InvalidConfig));
}

#[test]
fn test_schedule_uniform_depth_three() {
    let ops = schedule(3, false);
    let expected = vec![
        FmmOp::P2M,
        FmmOp::M2M { level: 3 },
        FmmOp::M2M { level: 2 },
        FmmOp::M2M { level: 1 },
        FmmOp::M2L { level: 2 },
        FmmOp::L2L { level: 3 },
        FmmOp::M2L { level: 3 },
        FmmOp::P2P,
        FmmOp::L2P,
    ];
    assert_eq!(ops, expected);
}

#[test]
fn test_schedule_adaptive_depth_three() {
    let ops = schedule(3, true);
    let expected = vec![
        FmmOp::P2M,
        FmmOp::M2M { level: 3 },
        FmmOp::M2M { level: 2 },
        FmmOp::M2M { level: 1 },
        FmmOp::P2L { level: 2 },
        FmmOp::M2L { level: 2 },
        FmmOp::L2L { level: 3 },
        FmmOp::P2L { level: 3 },
        FmmOp::M2L { level: 3 },
        FmmOp::M2P,
        FmmOp::P2P,
        FmmOp::L2P,
    ];
    assert_eq!(ops, expected);
}
