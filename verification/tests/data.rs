use micrograd_rs::data::Mnist;

#[test]
fn dimensions_are_the_first_image_and_the_distinct_labels() {
    let images = vec![vec![0.5, 1.5, 2.5], vec![1., 2., 3.], vec![4., 5., 6.], vec![7., 8., 9.]];
    let labels = vec![3, 1, 3, 7];
    let mnist = Mnist::new(images.clone(), labels.clone());
    assert_eq!(mnist.x_dim, 3);
    assert_eq!(mnist.y_dim, 3);
    assert_eq!(mnist.images, images);
    assert_eq!(mnist.labels, labels);
}

#[test]
fn no_labels_are_no_classes() {
    let mnist = Mnist::new(vec![vec![1.0_f64; 64]], vec![]);
    assert_eq!(mnist.x_dim, 64);
    assert_eq!(mnist.y_dim, 0);
    assert!(mnist.as_xy().is_empty());
}

#[test]
fn ten_digits_are_ten_classes() {
    let labels: Vec<u32> = (0..1797).map(|i| i % 10).collect();
    let images: Vec<Vec<f64>> = labels.iter().map(|l| vec![*l as f64; 64]).collect();
    let mnist = Mnist::new(images, labels);
    assert_eq!(mnist.images.len(), 1797);
    assert_eq!(mnist.labels.len(), 1797);
    assert_eq!(mnist.x_dim, 64);
    assert_eq!(mnist.y_dim, 10)
}

#[test]
fn as_xy_pairs_each_image_with_its_label() {
    let images = vec![vec![0.5], vec![1.5], vec![2.5]];
    let mnist = Mnist::new(images.clone(), vec![4, 5, 6]);
    let xy = mnist.as_xy();
    assert_eq!(xy.len(), 3);
    assert_eq!(xy[0], (&images[0], 4));
    assert_eq!(xy[1], (&images[1], 5));
    assert_eq!(xy[2], (&images[2], 6));

    let fewer_labels = Mnist::new(images.clone(), vec![4]);
    assert_eq!(fewer_labels.as_xy(), vec![(&images[0], 4)]);
    let fewer_images = Mnist::new(vec![vec![9.]], vec![1, 2, 3]);
    assert_eq!(fewer_images.as_xy(), vec![(&vec![9.], 1)]);
}
