use qutub_transpiler::angle::{Euler, Turn};
use qutub_transpiler::binary64::Binary64;
use qutub_transpiler::kak::{resynthesize_native_circuit, synthesize_two_qubit_unitary, Kak};
use qutub_transpiler::native::{NativeCircuit, NativeGate};
use rand::Rng;

fn f(x: f64) -> Binary64 {
    Binary64::from_bits(x.to_bits())
}

fn value(x: Binary64) -> f64 {
    f64::from_bits(x.to_bits())
}

#[derive(Clone, Copy, Debug)]
struct C {
    re: f64,
    im: f64,
}

impl C {
    fn new(re: f64, im: f64) -> Self {
        Self { re, im }
    }

    fn polar(r: f64, theta: f64) -> Self {
        Self::new(r * theta.cos(), r * theta.sin())
    }

    fn abs(self) -> f64 {
        (self.re * self.re + self.im * self.im).sqrt()
    }

    fn arg(self) -> f64 {
        self.im.atan2(self.re)
    }

    fn conj(self) -> Self {
        Self::new(self.re, -self.im)
    }
}

impl std::ops::Mul for C {
    type Output = C;

    fn mul(self, o: C) -> C {
        C::new(self.re * o.re - self.im * o.im, self.re * o.im + self.im * o.re)
    }
}

impl std::ops::Sub for C {
    type Output = C;

    fn sub(self, o: C) -> C {
        C::new(self.re - o.re, self.im - o.im)
    }
}

impl std::ops::Add for C {
    type Output = C;

    fn add(self, o: C) -> C {
        C::new(self.re + o.re, self.im + o.im)
    }
}

type Mat2 = [[C; 2]; 2];

const EPS: f64 = 1e-9;

fn m_identity() -> Mat2 {
    [[C::new(1.0, 0.0), C::new(0.0, 0.0)], [C::new(0.0, 0.0), C::new(1.0, 0.0)]]
}

/// The product `a . b`: `b` acts first.
fn matmul(a: Mat2, b: Mat2) -> Mat2 {
    let mut out = m_identity();
    for i in 0..2 {
        for j in 0..2 {
            out[i][j] = a[i][0] * b[0][j] + a[i][1] * b[1][j];
        }
    }
    out
}

fn m_rx(theta: f64) -> Mat2 {
    let (c, s) = ((theta / 2.0).cos(), (theta / 2.0).sin());
    [[C::new(c, 0.0), C::new(0.0, -s)], [C::new(0.0, -s), C::new(c, 0.0)]]
}

fn m_ry(theta: f64) -> Mat2 {
    let (c, s) = ((theta / 2.0).cos(), (theta / 2.0).sin());
    [[C::new(c, 0.0), C::new(-s, 0.0)], [C::new(s, 0.0), C::new(c, 0.0)]]
}

fn m_rz(theta: f64) -> Mat2 {
    let h = theta / 2.0;
    [[C::polar(1.0, -h), C::new(0.0, 0.0)], [C::new(0.0, 0.0), C::polar(1.0, h)]]
}

fn m_h() -> Mat2 {
    let f = 1.0 / std::f64::consts::SQRT_2;
    [[C::new(f, 0.0), C::new(f, 0.0)], [C::new(f, 0.0), C::new(-f, 0.0)]]
}

/// A diagonal matrix with a phase in its second place.
fn phase(p: C) -> Mat2 {
    [[C::new(1.0, 0.0), C::new(0.0, 0.0)], [C::new(0.0, 0.0), p]]
}

fn turn_matrix(t: Turn) -> Mat2 {
    let zero = C::new(0.0, 0.0);
    match t {
        Turn::H => m_h(),
        Turn::X => [[zero, C::new(1.0, 0.0)], [C::new(1.0, 0.0), zero]],
        Turn::Y => [[zero, C::new(0.0, -1.0)], [C::new(0.0, 1.0), zero]],
        Turn::Z => phase(C::new(-1.0, 0.0)),
        Turn::S => phase(C::new(0.0, 1.0)),
        Turn::Sdg => phase(C::new(0.0, -1.0)),
        Turn::T => phase(C::polar(1.0, std::f64::consts::FRAC_PI_4)),
        Turn::Tdg => phase(C::polar(1.0, -std::f64::consts::FRAC_PI_4)),
        Turn::Rx(a) => m_rx(value(a)),
        Turn::Ry(a) => m_ry(value(a)),
        Turn::Rz(a) => m_rz(value(a)),
    }
}

/// Angles `(delta, gamma, beta)` with `Rz(beta) . Ry(gamma) . Rz(delta)` the
/// operation, up to a global phase.
fn zyz_decompose(m: Mat2) -> (f64, f64, f64) {
    let det = m[0][0] * m[1][1] - m[0][1] * m[1][0];
    let g = C::polar(1.0, -det.arg() / 2.0);
    let v00 = g * m[0][0];
    let v01 = g * m[0][1];
    let c = v00.abs();
    let s = v01.abs();
    let gamma = 2.0 * s.atan2(c);
    let beta_plus_delta = -2.0 * v00.arg();
    let beta_minus_delta = -2.0 * (v01 * C::new(-1.0, 0.0)).arg();
    if c < EPS {
        (0.0, gamma, beta_minus_delta)
    } else if s < EPS {
        (0.0, gamma, beta_plus_delta)
    } else {
        let beta = 0.5 * (beta_plus_delta + beta_minus_delta);
        let delta = 0.5 * (beta_plus_delta - beta_minus_delta);
        (delta, gamma, beta)
    }
}

fn euler_of_matrix(m: Mat2) -> Euler {
    let (delta, gamma, beta) = zyz_decompose(m);
    Euler { delta: f(delta), gamma: f(gamma), beta: f(beta) }
}

/// The Euler angles that the library asks for.
fn euler(turns: &Vec<Turn>) -> Euler {
    let mut m = match turns.first() {
        Some(t) => turn_matrix(*t),
        None => m_identity(),
    };
    for t in turns.iter().skip(1) {
        m = matmul(turn_matrix(*t), m);
    }
    euler_of_matrix(m)
}



type Mat4 = [[C; 4]; 4];

fn mat4_zero() -> Mat4 {
    [[C::new(0.0, 0.0); 4]; 4]
}

fn matmul4(a: &Mat4, b: &Mat4) -> Mat4 {
    let mut out = mat4_zero();
    for i in 0..4 {
        for j in 0..4 {
            let mut s = C::new(0.0, 0.0);
            for k in 0..4 {
                s = s + a[i][k] * b[k][j];
            }
            out[i][j] = s;
        }
    }
    out
}

fn dagger4(a: &Mat4) -> Mat4 {
    let mut out = mat4_zero();
    for i in 0..4 {
        for j in 0..4 {
            out[i][j] = a[j][i].conj();
        }
    }
    out
}

fn transpose4(a: &Mat4) -> Mat4 {
    let mut out = mat4_zero();
    for i in 0..4 {
        for j in 0..4 {
            out[i][j] = a[j][i];
        }
    }
    out
}

/// The Kronecker product; the first factor has the higher weight.
fn kron(a: &Mat2, b: &Mat2) -> Mat4 {
    let mut out = mat4_zero();
    for i in 0..2 {
        for j in 0..2 {
            for k in 0..2 {
                for l in 0..2 {
                    out[2 * i + k][2 * j + l] = a[i][j] * b[k][l];
                }
            }
        }
    }
    out
}

/// The determinant, by elimination.
fn det4(min: &Mat4) -> C {
    let mut m = *min;
    let mut det = C::new(1.0, 0.0);
    for col in 0..4 {
        let mut piv = col;
        let mut best = m[col][col].abs();
        for r in (col + 1)..4 {
            if m[r][col].abs() > best {
                best = m[r][col].abs();
                piv = r;
            }
        }
        if piv != col {
            m.swap(col, piv);
            det = C::new(0.0, 0.0) - det;
        }
        if m[col][col].abs() < 1e-14 {
            return C::new(0.0, 0.0);
        }
        det = det * m[col][col];
        let denom = m[col][col];
        let inv = denom.conj() * C::new(1.0 / (denom.abs() * denom.abs()), 0.0);
        for r in (col + 1)..4 {
            let factor = m[r][col] * inv;
            for cc in col..4 {
                m[r][cc] = m[r][cc] - factor * m[col][cc];
            }
        }
    }
    det
}

/// The basis in which local operations are real.
fn magic_basis() -> Mat4 {
    let f = 1.0 / std::f64::consts::SQRT_2;
    let z = C::new(0.0, 0.0);
    let r = |x: f64| C::new(x, 0.0);
    let ii = |x: f64| C::new(0.0, x);
    [
        [r(f), z, z, ii(f)],
        [z, ii(f), r(f), z],
        [z, ii(f), r(-f), z],
        [r(f), z, z, ii(-f)],
    ]
}

/// Eigenvectors of a real symmetric matrix, by cyclic Jacobi rotations.
fn jacobi_eigen_4(a_in: &[[f64; 4]; 4]) -> ([[f64; 4]; 4], [f64; 4]) {
    let mut a = *a_in;
    let mut v = [[0.0f64; 4]; 4];
    for i in 0..4 {
        v[i][i] = 1.0;
    }
    for _sweep in 0..100 {
        let mut off = 0.0;
        for p in 0..4 {
            for q in (p + 1)..4 {
                off += a[p][q] * a[p][q];
            }
        }
        if off.sqrt() < 1e-14 {
            break;
        }
        for p in 0..4 {
            for q in (p + 1)..4 {
                if a[p][q].abs() < 1e-300 {
                    continue;
                }
                let theta = 0.5 * (2.0 * a[p][q]).atan2(a[q][q] - a[p][p]);
                let c = theta.cos();
                let s = theta.sin();
                for k in 0..4 {
                    let akp = a[k][p];
                    let akq = a[k][q];
                    a[k][p] = c * akp - s * akq;
                    a[k][q] = s * akp + c * akq;
                }
                for k in 0..4 {
                    let apk = a[p][k];
                    let aqk = a[q][k];
                    a[p][k] = c * apk - s * aqk;
                    a[q][k] = s * apk + c * aqk;
                }
                for k in 0..4 {
                    let vkp = v[k][p];
                    let vkq = v[k][q];
                    v[k][p] = c * vkp - s * vkq;
                    v[k][q] = s * vkp + c * vkq;
                }
            }
        }
    }
    let eigs = [a[0][0], a[1][1], a[2][2], a[3][3]];
    (v, eigs)
}

fn conjugate_real(a: &[[f64; 4]; 4], v: &[[f64; 4]; 4]) -> [[f64; 4]; 4] {
    let mut vt_a = [[0.0f64; 4]; 4];
    for i in 0..4 {
        for j in 0..4 {
            let mut s = 0.0;
            for k in 0..4 {
                s += v[k][i] * a[k][j];
            }
            vt_a[i][j] = s;
        }
    }
    let mut out = [[0.0f64; 4]; 4];
    for i in 0..4 {
        for j in 0..4 {
            let mut s = 0.0;
            for k in 0..4 {
                s += vt_a[i][k] * v[k][j];
            }
            out[i][j] = s;
        }
    }
    out
}

/// The factors of a Kronecker product.
fn un_kron(m: &Mat4) -> (Mat2, Mat2) {
    let mut best_norm = -1.0;
    let (mut bi, mut bj) = (0, 0);
    for i in 0..2 {
        for j in 0..2 {
            let mut norm = 0.0;
            for k in 0..2 {
                for l in 0..2 {
                    let v = m[2 * i + k][2 * j + l];
                    norm += v.abs() * v.abs();
                }
            }
            if norm > best_norm {
                best_norm = norm;
                bi = i;
                bj = j;
            }
        }
    }
    let mut best_e = -1.0;
    let (mut pp, mut qq) = (0, 0);
    for k in 0..2 {
        for l in 0..2 {
            let v = m[2 * bi + k][2 * bj + l];
            if v.abs() > best_e {
                best_e = v.abs();
                pp = k;
                qq = l;
            }
        }
    }
    let scale = m[2 * bi + pp][2 * bj + qq];
    let inv_scale = scale.conj() * C::new(1.0 / (scale.abs() * scale.abs()), 0.0);
    let mut b = [[C::new(0.0, 0.0); 2]; 2];
    for k in 0..2 {
        for l in 0..2 {
            b[k][l] = m[2 * bi + k][2 * bj + l] * inv_scale;
        }
    }
    let mut a = [[C::new(0.0, 0.0); 2]; 2];
    for i in 0..2 {
        for j in 0..2 {
            a[i][j] = m[2 * i + pp][2 * j + qq];
        }
    }
    (a, b)
}

/// A two-qubit operation as local ones around rotations about XX, YY and ZZ.
struct MatrixKak {
    k1: Mat2,
    k2: Mat2,
    a: f64,
    b: f64,
    c: f64,
    k3: Mat2,
    k4: Mat2,
}

/// Cartan's decomposition of a two-qubit operation.
fn kak_decompose(u: &Mat4) -> MatrixKak {
    let det = det4(u);
    let phase = det.arg() / 4.0;
    let s_inv = C::polar(1.0, -phase);
    let mut uprime = mat4_zero();
    for i in 0..4 {
        for j in 0..4 {
            uprime[i][j] = u[i][j] * s_inv;
        }
    }

    let m = magic_basis();
    let mdag = dagger4(&m);
    let ub = matmul4(&mdag, &matmul4(&uprime, &m));

    let ubt = transpose4(&ub);
    let s = matmul4(&ubt, &ub);

    let mut x = [[0.0f64; 4]; 4];
    let mut y = [[0.0f64; 4]; 4];
    for i in 0..4 {
        for j in 0..4 {
            x[i][j] = s[i][j].re;
            y[i][j] = s[i][j].im;
        }
    }

    let mut v_mat = [[0.0f64; 4]; 4];
    let mut found = false;
    for t in [1.3126, 0.71933, 2.23517, 3.87211, 0.13579] {
        let mut z = [[0.0f64; 4]; 4];
        for i in 0..4 {
            for j in 0..4 {
                z[i][j] = x[i][j] + t * y[i][j];
            }
        }
        let (v, _) = jacobi_eigen_4(&z);
        let xd = conjugate_real(&x, &v);
        let yd = conjugate_real(&y, &v);
        let mut off = 0.0;
        for i in 0..4 {
            for j in 0..4 {
                if i != j {
                    off += xd[i][j].abs() + yd[i][j].abs();
                }
            }
        }
        if off < 1e-7 {
            v_mat = v;
            found = true;
            break;
        }
    }
    assert!(
        found,
        "kak_decompose: input was not unitary (X,Y failed to commute under every generic combination tried)"
    );

    let xd = conjugate_real(&x, &v_mat);
    let yd = conjugate_real(&y, &v_mat);

    let mut theta = [0.0f64; 4];
    for j in 0..4 {
        theta[j] = 0.5 * yd[j][j].atan2(xd[j][j]);
    }
    let total: f64 = theta.iter().sum();
    theta[3] -= total;

    let a = (theta[0] + theta[1]) / 2.0;
    let b = (theta[1] + theta[3]) / 2.0;
    let c = (theta[0] + theta[3]) / 2.0;

    let d_core: Mat4 = {
        let mut d = mat4_zero();
        for (k, th) in theta.iter().enumerate() {
            d[k][k] = C::polar(1.0, *th);
        }
        d
    };

    let mut o_r = mat4_zero();
    for i in 0..4 {
        for j in 0..4 {
            o_r[i][j] = C::new(v_mat[j][i], 0.0);
        }
    }
    if det4(&o_r).re < 0.0 {
        for j in 0..4 {
            o_r[0][j] = C::new(0.0, 0.0) - o_r[0][j];
        }
    }

    let o_r_t = transpose4(&o_r);
    let d_core_inv: Mat4 = {
        let mut d = mat4_zero();
        for k in 0..4 {
            d[k][k] = d_core[k][k].conj();
        }
        d
    };
    let o_l = matmul4(&ub, &matmul4(&o_r_t, &d_core_inv));

    let k12 = matmul4(&m, &matmul4(&o_l, &mdag));
    let k34 = matmul4(&m, &matmul4(&o_r, &mdag));
    let (k1, k2) = un_kron(&k12);
    let (k3, k4) = un_kron(&k34);

    MatrixKak { k1, k2, a, b, c, k3, k4 }
}

/// The matrix of a two-qubit rotation about ZZ.
fn rzz_matrix(theta: f64) -> Mat4 {
    let mut m = mat4_zero();
    let half = theta / 2.0;
    m[0][0] = C::polar(1.0, -half);
    m[1][1] = C::polar(1.0, half);
    m[2][2] = C::polar(1.0, half);
    m[3][3] = C::polar(1.0, -half);
    m
}

/// The matrix of a run on the qubits `lo` and another one.
fn run_matrix(gates: &[NativeGate], lo: usize) -> Mat4 {
    let mut acc = kron(&m_identity(), &m_identity());
    for g in gates {
        let m = match *g {
            NativeGate::Rz(q, a) => embed(q == lo, m_rz(value(a))),
            NativeGate::Ry(q, a) => embed(q == lo, m_ry(value(a))),
            NativeGate::Rzz(_, _, a) => rzz_matrix(value(a)),
            NativeGate::Measure(..) | NativeGate::If(..) => continue,
        };
        acc = matmul4(&m, &acc);
    }
    acc
}

fn embed(first: bool, m: Mat2) -> Mat4 {
    if first {
        kron(&m, &m_identity())
    } else {
        kron(&m_identity(), &m)
    }
}

/// A run anew, with at most three two-qubit rotations.
fn synthesize(gates: &Vec<NativeGate>, lo: usize, hi: usize) -> Vec<NativeGate> {
    assert!(lo < usize::MAX && hi < usize::MAX, "qubit index out of range");
    let kak = angles(&kak_decompose(&run_matrix(gates, lo)));
    synthesize_two_qubit_unitary(&kak, lo, hi, &euler).gates
}

fn angles(k: &MatrixKak) -> Kak {
    Kak {
        k1: euler_of_matrix(k.k1),
        k2: euler_of_matrix(k.k2),
        a: f(k.a),
        b: f(k.b),
        c: f(k.c),
        k3: euler_of_matrix(k.k3),
        k4: euler_of_matrix(k.k4),
    }
}

fn unitary_fidelity4(a: &Mat4, b: &Mat4) -> f64 {
    let ad = dagger4(a);
    let prod = matmul4(&ad, b);
    let mut tr = C::new(0.0, 0.0);
    for i in 0..4 {
        tr = tr + prod[i][i];
    }
    let f = tr.abs() / 4.0;
    f * f
}

fn random_su2(rng: &mut impl Rng) -> Mat2 {
    let a: f64 = rng.gen_range(0.0..std::f64::consts::TAU);
    let b: f64 = rng.gen_range(0.0..std::f64::consts::TAU);
    let c: f64 = rng.gen_range(0.0..std::f64::consts::TAU);
    matmul(m_rz(a), matmul(m_ry(b), m_rz(c)))
}

fn reconstruct(kak: &MatrixKak) -> Mat4 {
    let x: Mat2 = [[C::new(0.0,0.0), C::new(1.0,0.0)], [C::new(1.0,0.0), C::new(0.0,0.0)]];
    let y: Mat2 = [[C::new(0.0,0.0), C::new(0.0,-1.0)], [C::new(0.0,1.0), C::new(0.0,0.0)]];
    let z: Mat2 = [[C::new(1.0,0.0), C::new(0.0,0.0)], [C::new(0.0,0.0), C::new(-1.0,0.0)]];
    let xx = kron(&x,&x); let yy = kron(&y,&y); let zz = kron(&z,&z);
    let exp_i_herm = |gen: &Mat4, coeff: f64| -> Mat4 {
        let mut out = mat4_zero();
        for i in 0..4 { for j in 0..4 {
            let ident = if i==j { C::new(1.0,0.0) } else { C::new(0.0,0.0) };
            out[i][j] = ident * C::new(coeff.cos(),0.0) + gen[i][j] * C::new(0.0, coeff.sin());
        }}
        out
    };
    let core = matmul4(&exp_i_herm(&zz, kak.c), &matmul4(&exp_i_herm(&yy, kak.b), &exp_i_herm(&xx, kak.a)));
    matmul4(&kron(&kak.k1,&kak.k2), &matmul4(&core, &kron(&kak.k3,&kak.k4)))
}

fn simulate_native_circuit_as_mat4(circuit: &NativeCircuit, q0: usize, q1: usize) -> Mat4 {
    let ident2: Mat2 = [
        [C::new(1.0, 0.0), C::new(0.0, 0.0)],
        [C::new(0.0, 0.0), C::new(1.0, 0.0)],
    ];
    let embed_single = |q: usize, m: Mat2| -> Mat4 {
        if q == q0 {
            kron(&m, &ident2)
        } else {
            kron(&ident2, &m)
        }
    };
    let mut acc = mat4_zero();
    for i in 0..4 {
        acc[i][i] = C::new(1.0, 0.0);
    }
    for gate in &circuit.gates {
        let g: Mat4 = match *gate {
            NativeGate::Rz(q, theta) => embed_single(q, m_rz(value(theta))),
            NativeGate::Ry(q, theta) => embed_single(q, m_ry(value(theta))),
            NativeGate::Measure(..) | NativeGate::If(..) => panic!("no unitary action"),
            NativeGate::Rzz(_, _, theta) => {
                let z: Mat2 = [
                    [C::new(1.0, 0.0), C::new(0.0, 0.0)],
                    [C::new(0.0, 0.0), C::new(-1.0, 0.0)],
                ];
                let zz = kron(&z, &z);
                let mut out = mat4_zero();
                for i in 0..4 {
                    for j in 0..4 {
                        let ident = if i == j { C::new(1.0, 0.0) } else { C::new(0.0, 0.0) };
                        out[i][j] = ident * C::new((value(theta) / 2.0).cos(), 0.0)
                            + zz[i][j] * C::new(0.0, -(value(theta) / 2.0).sin());
                    }
                }
                out
            }
        };
        acc = matmul4(&g, &acc); // gate list order: first-applied-first
    }
    acc
}

#[test]
fn resynthesis_preserves_action_on_a_multi_rzz_block() {
    let mut nc = NativeCircuit::new(2);
    nc.push(NativeGate::Rz(0, f(0.3)));
    nc.push(NativeGate::Rzz(0, 1, f(0.5)));
    nc.push(NativeGate::Ry(1, f(0.2)));
    nc.push(NativeGate::Rzz(1, 0, f(-0.7))); // reversed qubit order on purpose
    nc.push(NativeGate::Rz(1, f(-0.1)));
    nc.push(NativeGate::Rzz(0, 1, f(0.9)));
    nc.push(NativeGate::Ry(0, f(0.4)));

    let resynth = resynthesize_native_circuit(&nc, &synthesize);

    let before = simulate_native_circuit_as_mat4(&nc, 0, 1);
    let after = simulate_native_circuit_as_mat4(&resynth, 0, 1);
    let fid = unitary_fidelity4(&before, &after);
    assert!((fid - 1.0).abs() < 1e-9, "fidelity {} after resynthesis", fid);

    let (_, two_count) = resynth.gate_counts();
    assert!(
        two_count <= 3,
        "expected at most 3 Rzz's after KAK resynthesis, got {}",
        two_count
    );
}

#[test]
fn single_rzz_block_is_left_untouched() {
    let mut nc = NativeCircuit::new(2);
    nc.push(NativeGate::Rz(0, f(0.3)));
    nc.push(NativeGate::Rzz(0, 1, f(0.5)));
    nc.push(NativeGate::Ry(1, f(0.2)));

    let resynth = resynthesize_native_circuit(&nc, &synthesize);
    assert_eq!(resynth.gates, nc.gates);
}

#[test]
fn disjoint_qubit_gates_pass_through_and_dont_join_a_block() {
    let mut nc = NativeCircuit::new(5);
    nc.push(NativeGate::Rzz(0, 1, f(0.1)));
    nc.push(NativeGate::Rz(4, f(1.23))); // fully unrelated qubit
    nc.push(NativeGate::Rzz(2, 3, f(0.2)));
    nc.push(NativeGate::Rzz(0, 1, f(0.3)));
    nc.push(NativeGate::Rzz(2, 3, f(0.4)));

    let resynth = resynthesize_native_circuit(&nc, &synthesize);

    assert!(resynth
        .gates
        .iter()
        .any(|g| matches!(*g, NativeGate::Rz(4, a) if (value(a) - 1.23).abs() < 1e-12)));

    let count_pair = |a: usize, b: usize| {
        resynth
            .gates
            .iter()
            .filter(|g| matches!(**g, NativeGate::Rzz(x, y, _) if (x, y) == (a, b) || (x, y) == (b, a)))
            .count()
    };
    assert!(count_pair(0, 1) <= 3);
    assert!(count_pair(2, 3) <= 3);
}

#[test]
fn emitted_gate_circuit_matches_the_decomposed_unitary() {
    let mut rng = rand::thread_rng();
    for _ in 0..500 {
        let k1 = random_su2(&mut rng);
        let k2 = random_su2(&mut rng);
        let k3 = random_su2(&mut rng);
        let k4 = random_su2(&mut rng);
        let a: f64 = rng.gen_range(-1.5..1.5);
        let b: f64 = rng.gen_range(-1.5..1.5);
        let c: f64 = rng.gen_range(-1.5..1.5);
        let u = reconstruct(&MatrixKak { k1, k2, a, b, c, k3, k4 });

        let circuit = synthesize_two_qubit_unitary(&angles(&kak_decompose(&u)), 0, 1, &euler);
        let simulated = simulate_native_circuit_as_mat4(&circuit, 0, 1);
        let fid = unitary_fidelity4(&u, &simulated);
        assert!((fid - 1.0).abs() < 1e-6, "circuit fidelity {} at a={} b={} c={}", fid, a, b, c);
    }
}

#[test]
fn a_run_of_five_rotations_shrinks_to_three() {
    let mut nc = NativeCircuit::new(2);
    for k in 0..5 {
        nc.push(NativeGate::Rzz(0, 1, f(0.3 + 0.2 * k as f64)));
        nc.push(NativeGate::Ry(0, f(0.7 - 0.1 * k as f64)));
        nc.push(NativeGate::Rz(0, f(0.5 + 0.2 * k as f64)));
        nc.push(NativeGate::Rz(1, f(0.4)));
        nc.push(NativeGate::Ry(1, f(0.2 + 0.3 * k as f64)));
    }
    let resynth = resynthesize_native_circuit(&nc, &synthesize);
    assert_eq!(nc.gate_counts().1, 5);
    assert_eq!(resynth.gate_counts().1, 3);
}

#[test]
fn each_coefficient_that_is_zero_saves_a_rotation() {
    let none = Euler { delta: f(0.0), gamma: f(0.0), beta: f(0.0) };
    let kak = |a: f64, b: f64, c: f64| Kak {
        k1: none,
        k2: none,
        a: f(a),
        b: f(b),
        c: f(c),
        k3: none,
        k4: none,
    };
    for (k, n) in [(kak(0.0, 0.0, 0.0), 0), (kak(0.1, 0.0, 0.2), 2), (kak(0.1, 0.2, 0.3), 3)] {
        let nc = synthesize_two_qubit_unitary(&k, 0, 1, &euler);
        assert_eq!(nc.gate_counts().1, n);
    }
}
