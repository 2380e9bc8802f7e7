use tropical_geometry::{ReLULayer, TropicalNetwork};

#[test]
fn test_max_linear_regions() {
    let net = TropicalNetwork::simple_1d(
        &[1.0, -1.0, 1.0], &[0.0, 0.0, 0.0],
        &[1.0, 1.0, 1.0], 0.0,
    );
    assert_eq!(net.max_linear_regions(), 3);
}

#[test]
fn max_linear_regions_is_product_of_widths() {
    let net = TropicalNetwork::simple_1d(
        &[1.0, -1.0, 1.0, -1.0, 1.0],
        &[0.0, 0.0, 0.0, 0.0, 0.0],
        &[1.0, 1.0, 1.0, 1.0, 1.0],
        0.0,
    );
    assert_eq!(net.max_linear_regions(), 5);
    let wide = TropicalNetwork::new(vec![
        ReLULayer::new(vec![vec![1.0]; 4], vec![0.0; 4]),
        ReLULayer::new(vec![vec![1.0; 4]; 3], vec![0.0; 3]),
        ReLULayer::new(vec![vec![1.0; 3]; 2], vec![0.0; 2]),
    ]);
    assert_eq!(wide.max_linear_regions(), 24);
    let none: TropicalNetwork<f64> = TropicalNetwork::new(vec![]);
    assert_eq!(none.max_linear_regions(), 1);
    let dead = TropicalNetwork::new(vec![ReLULayer::<f64>::new(vec![], vec![])]);
    assert_eq!(dead.max_linear_regions(), 0);
}

#[test]
fn simple_1d_builds_two_layers() {
    let net = TropicalNetwork::simple_1d(&[1.0, -1.0, 2.0], &[0.0, 0.0, -1.0], &[1.0, 1.0, 1.0], 0.5);
    assert_eq!(net.layers.len(), 2);
    assert_eq!(net.layers[0].weights, vec![vec![1.0], vec![-1.0], vec![2.0]]);
    assert_eq!(net.layers[0].bias, vec![0.0, 0.0, -1.0]);
    assert_eq!(net.layers[1].weights, vec![vec![1.0, 1.0, 1.0]]);
    assert_eq!(net.layers[1].bias, vec![0.5]);
    assert_eq!(net.layers[0].input_dim(), 1);
    assert_eq!(net.layers[0].output_dim(), 3);
    assert_eq!(net.layers[1].input_dim(), 3);
    assert_eq!(net.layers[1].output_dim(), 1);
}

#[test]
fn layer_dimensions() {
    let layer = ReLULayer::new(vec![vec![1.0, -1.0], vec![-1.0, 1.0]], vec![0.0, 0.0]);
    assert_eq!(layer.output_dim(), 2);
    assert_eq!(layer.input_dim(), 2);
    let empty: ReLULayer<f64> = ReLULayer::new(vec![], vec![]);
    assert_eq!(empty.output_dim(), 0);
    assert_eq!(empty.input_dim(), 0);
}
