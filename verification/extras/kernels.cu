// Device kernels. Symbols and parameter order are those of the launches that
// the library plans.

typedef unsigned int u32;
typedef long long i64;

#define KERNEL extern "C" __global__ void

__device__ __forceinline__ u32 element() { return blockIdx.x * blockDim.x + threadIdx.x; }

// ---- Element-wise ----------------------------------------------------------

KERNEL add_f32(const float *a, const float *b, float *c, u32 n) {
    u32 i = element();
    if (i < n) c[i] = a[i] + b[i];
}

KERNEL sub_f32(const float *a, const float *b, float *c, u32 n) {
    u32 i = element();
    if (i < n) c[i] = a[i] - b[i];
}

KERNEL mul(const float *a, const float *b, float *c, u32 n) {
    u32 i = element();
    if (i < n) c[i] = a[i] * b[i];
}

KERNEL div_f32(const float *a, const float *b, float *c, u32 n) {
    u32 i = element();
    if (i < n) c[i] = a[i] / b[i];
}

KERNEL neg_f32(const float *a, float *c, u32 n) {
    u32 i = element();
    if (i < n) c[i] = -a[i];
}

KERNEL exp_f32(const float *a, float *c, u32 n) {
    u32 i = element();
    if (i < n) c[i] = expf(a[i]);
}

KERNEL sqrt_f32(const float *a, float *c, u32 n) {
    u32 i = element();
    if (i < n) c[i] = sqrtf(a[i]);
}

KERNEL sigmoid_f32(const float *a, float *c, u32 n) {
    u32 i = element();
    if (i < n) c[i] = 1.0f / (1.0f + expf(-a[i]));
}

KERNEL silu_f32(const float *a, float *c, u32 n) {
    u32 i = element();
    if (i < n) c[i] = a[i] * (1.0f / (1.0f + expf(-a[i])));
}

KERNEL softplus_f32(const float *a, float *c, u32 n) {
    u32 i = element();
    if (i < n) c[i] = fmaxf(a[i], 0.0f) + logf(1.0f + expf(-fabsf(a[i])));
}

KERNEL mul_scalar_f32(const float *a, float s, float *c, u32 n) {
    u32 i = element();
    if (i < n) c[i] = a[i] * s;
}

KERNEL add_scalar_f32(const float *a, float s, float *c, u32 n) {
    u32 i = element();
    if (i < n) c[i] = a[i] + s;
}

// ---- Layout ----------------------------------------------------------------

KERNEL transpose_2d_f32(const float *src, float *dst, u32 rows, u32 cols) {
    u32 i = element();
    if (i < rows * cols) dst[i] = src[(i % rows) * cols + i / rows];
}

__device__ u32 strided(u32 i, const u32 *out, const u32 *src, u32 rank) {
    u32 p = 0;
    for (u32 k = 0; k < rank; k++) {
        p += (i / out[k]) * src[k];
        i %= out[k];
    }
    return p;
}

KERNEL transpose_nd_f32(const float *src, float *dst, const u32 *in_strides,
                        const u32 *out_strides, u32 rank, u32 n) {
    u32 i = element();
    if (i < n) dst[i] = src[strided(i, out_strides, in_strides, rank)];
}

KERNEL narrow_copy_f32(const float *src, float *dst, u32 outer, u32 axis, u32 len, u32 start,
                       u32 inner, u32 n) {
    u32 i = element();
    if (i >= n) return;
    u32 o = i / (len * inner), a = (i / inner) % len;
    dst[i] = src[(o * axis + start + a) * inner + i % inner];
}

KERNEL narrow_backward_f32(const float *grad, float *dst, u32 axis, u32 len, u32 start, u32 inner,
                           u32 n) {
    u32 i = element();
    if (i >= n) return;
    u32 o = i / (axis * inner), a = (i / inner) % axis;
    bool inside = a >= start && a < start + len;
    dst[i] = inside ? grad[(o * len + a - start) * inner + i % inner] : 0.0f;
}

KERNEL broadcast_copy_f32(const float *src, float *dst, const u32 *src_strides,
                          const u32 *dst_strides, u32 rank, u32 n) {
    u32 i = element();
    if (i < n) dst[i] = src[strided(i, dst_strides, src_strides, rank)];
}

KERNEL broadcast_mul_f32(const float *a, const float *b, float *dst, const u32 *a_strides,
                         const u32 *b_strides, const u32 *dst_strides, u32 rank, u32 n) {
    u32 i = element();
    if (i < n)
        dst[i] = a[strided(i, dst_strides, a_strides, rank)]
            * b[strided(i, dst_strides, b_strides, rank)];
}

// ---- Rows ------------------------------------------------------------------

KERNEL cumsum_lastdim_f32(const float *src, float *dst, u32 rows, u32 width) {
    u32 r = element();
    if (r >= rows) return;
    float acc = 0.0f;
    for (u32 i = 0; i < width; i++) {
        acc += src[r * width + i];
        dst[r * width + i] = acc;
    }
}

KERNEL reverse_cumsum_lastdim_f32(const float *src, float *dst, u32 rows, u32 width) {
    u32 r = element();
    if (r >= rows) return;
    float acc = 0.0f;
    for (u32 i = width; i > 0; i--) {
        acc += src[r * width + i - 1];
        dst[r * width + i - 1] = acc;
    }
}

KERNEL rmsnorm_f32(const float *x, const float *w, float *out, u32 rows, u32 d, float eps) {
    u32 r = element();
    if (r >= rows) return;
    float sum = 0.0f;
    for (u32 i = 0; i < d; i++) sum += x[r * d + i] * x[r * d + i];
    float inv = rsqrtf(sum / (float)d + eps);
    for (u32 i = 0; i < d; i++) out[r * d + i] = x[r * d + i] * w[i] * inv;
}

// One block per row.
KERNEL rmsnorm_backward_x_f32(float *gx, const float *go, const float *x, const float *w, u32 rows,
                              u32 d, float eps) {
    extern __shared__ float s[];
    u32 row = blockIdx.x, tid = threadIdx.x, n = blockDim.x;
    if (row >= rows) return;
    float square = 0.0f, dot = 0.0f;
    for (u32 i = tid; i < d; i += n) {
        float xi = x[row * d + i];
        square += xi * xi;
        dot += go[row * d + i] * xi * w[i];
    }
    s[tid] = square;
    s[n + tid] = dot;
    __syncthreads();
    for (u32 half = n / 2; half > 0; half /= 2) {
        if (tid < half) {
            s[tid] += s[tid + half];
            s[n + tid] += s[n + tid + half];
        }
        __syncthreads();
    }
    float inv = rsqrtf(s[0] / (float)d + eps);
    float scale = s[n] * inv * inv * inv / (float)d;
    for (u32 i = tid; i < d; i += n)
        gx[row * d + i] = w[i] * inv * go[row * d + i] - x[row * d + i] * scale;
}

// One thread per column and chunk of rows.
KERNEL rmsnorm_backward_w_partial_f32(float *partial, const float *go, const float *x, u32 rows,
                                      u32 d, u32 per_chunk, u32 chunks, float eps) {
    u32 col = element(), chunk = blockIdx.y;
    if (col >= d || chunk >= chunks) return;
    u32 from = chunk * per_chunk, to = min(from + per_chunk, rows);
    float acc = 0.0f;
    for (u32 r = from; r < to; r++) {
        float sum = 0.0f;
        for (u32 i = 0; i < d; i++) sum += x[r * d + i] * x[r * d + i];
        acc += go[r * d + col] * x[r * d + col] * rsqrtf(sum / (float)d + eps);
    }
    partial[chunk * d + col] = acc;
}

KERNEL log_softmax_lastdim_f32(const float *src, float *dst, u32 rows, u32 width) {
    u32 r = element();
    if (r >= rows) return;
    const float *x = src + (size_t)r * width;
    float top = x[0], sum = 0.0f;
    for (u32 i = 1; i < width; i++) top = x[i] > top ? x[i] : top;
    for (u32 i = 0; i < width; i++) sum += expf(x[i] - top);
    float log_sum = logf(sum);
    for (u32 i = 0; i < width; i++) dst[(size_t)r * width + i] = x[i] - top - log_sum;
}

// ---- Lookups: indices out of range read zero and write nothing --------------

KERNEL embedding_f32(const float *table, const i64 *indices, float *out, u32 count, u32 dim,
                     u32 rows) {
    u32 i = element();
    if (i >= count * dim) return;
    i64 raw = indices[i / dim];
    out[i] = raw >= 0 && raw < (i64)rows ? table[raw * dim + i % dim] : 0.0f;
}

KERNEL scatter_add_embedding_f32(float *grad, const i64 *indices, const float *go, u32 count,
                                 u32 dim, u32 rows) {
    u32 i = element();
    if (i >= count * dim) return;
    i64 raw = indices[i / dim];
    if (raw >= 0 && raw < (i64)rows) atomicAdd(&grad[raw * dim + i % dim], go[i]);
}

KERNEL gather_lastdim_f32(const float *src, const i64 *indices, float *out, u32 n, u32 width,
                          u32 picks) {
    u32 i = element();
    if (i >= n) return;
    i64 raw = indices[i];
    out[i] = raw >= 0 && raw < (i64)width ? src[(size_t)(i / picks) * width + raw] : 0.0f;
}

KERNEL scatter_add_gather_lastdim_f32(float *grad, const i64 *indices, const float *go, u32 n,
                                      u32 width, u32 picks) {
    u32 i = element();
    if (i >= n) return;
    i64 raw = indices[i];
    if (raw >= 0 && raw < (i64)width) atomicAdd(&grad[(size_t)(i / picks) * width + raw], go[i]);
}

// ---- Convolution -----------------------------------------------------------

// The element of the input that element `i` of the columns copies, or -1.
__device__ i64 column_source(u32 i, u32 c_in, u32 t_in, u32 t_out, u32 k_size, u32 stride,
                             u32 padding) {
    u32 width = c_in * k_size, row = i / width, col = i % width;
    u32 b = row / t_out, t = row % t_out, c = col / k_size, k = col % k_size;
    i64 at = (i64)t * stride + k - padding;
    return at >= 0 && at < (i64)t_in ? ((i64)b * c_in + c) * t_in + at : -1;
}

KERNEL im2col_f32(const float *src, float *dst, u32 batch, u32 c_in, u32 t_in, u32 t_out,
                  u32 k_size, u32 stride, u32 padding, u32 n) {
    u32 i = element();
    if (i >= n) return;
    i64 p = column_source(i, c_in, t_in, t_out, k_size, stride, padding);
    dst[i] = p >= 0 ? src[p] : 0.0f;
}

KERNEL col2im_f32(float *grad, const float *cols, u32 batch, u32 c_in, u32 t_in, u32 t_out,
                  u32 k_size, u32 stride, u32 padding, u32 n) {
    u32 i = element();
    if (i >= n) return;
    i64 p = column_source(i, c_in, t_in, t_out, k_size, stride, padding);
    if (p >= 0) atomicAdd(&grad[p], cols[i]);
}

// One block per batch entry and channel; the weights lie in shared memory.
KERNEL depthwise_conv1d_fwd_f32(const float *x, const float *w, const float *bias, float *y,
                                u32 batch, u32 channels, u32 t_in, u32 t_out, u32 k_size,
                                u32 stride, u32 padding, u32 has_bias) {
    extern __shared__ float s[];
    u32 c = blockIdx.x % channels, b = blockIdx.x / channels;
    if (b >= batch) return;
    if (threadIdx.x < k_size) s[threadIdx.x] = w[c * k_size + threadIdx.x];
    __syncthreads();
    const float *row = x + ((size_t)b * channels + c) * t_in;
    float *out = y + ((size_t)b * channels + c) * t_out;
    for (u32 t = threadIdx.x; t < t_out; t += blockDim.x) {
        float acc = 0.0f;
        for (u32 k = 0; k < k_size; k++) {
            i64 at = (i64)t * stride + k - padding;
            if (at >= 0 && at < (i64)t_in) acc += row[at] * s[k];
        }
        out[t] = has_bias ? acc + bias[c] : acc;
    }
}

KERNEL depthwise_conv1d_bwd_x_f32(const float *go, const float *w, float *gx, u32 batch,
                                  u32 channels, u32 t_in, u32 t_out, u32 k_size, u32 stride,
                                  u32 padding) {
    extern __shared__ float s[];
    u32 c = blockIdx.x % channels, b = blockIdx.x / channels;
    if (b >= batch) return;
    if (threadIdx.x < k_size) s[threadIdx.x] = w[c * k_size + threadIdx.x];
    __syncthreads();
    const float *row = go + ((size_t)b * channels + c) * t_out;
    float *out = gx + ((size_t)b * channels + c) * t_in;
    for (u32 i = threadIdx.x; i < t_in; i += blockDim.x) {
        float acc = 0.0f;
        for (u32 k = 0; k < k_size; k++) {
            i64 num = (i64)i + padding - k;
            if (num >= 0 && num % stride == 0 && num / stride < (i64)t_out)
                acc += row[num / stride] * s[k];
        }
        out[i] = acc;
    }
}

// One block per channel and tap.
KERNEL depthwise_conv1d_bwd_w_f32(const float *go, const float *x, float *gw, u32 batch,
                                  u32 channels, u32 t_in, u32 t_out, u32 k_size, u32 stride,
                                  u32 padding) {
    extern __shared__ float s[];
    u32 c = blockIdx.x, k = blockIdx.y, tid = threadIdx.x, n = blockDim.x;
    if (c >= channels || k >= k_size) return;
    float acc = 0.0f;
    for (u32 b = 0; b < batch; b++) {
        const float *g = go + ((size_t)b * channels + c) * t_out;
        const float *row = x + ((size_t)b * channels + c) * t_in;
        for (u32 t = tid; t < t_out; t += n) {
            i64 at = (i64)t * stride + k - padding;
            if (at >= 0 && at < (i64)t_in) acc += g[t] * row[at];
        }
    }
    s[tid] = acc;
    __syncthreads();
    for (u32 half = n / 2; half > 0; half /= 2) {
        if (tid < half) s[tid] += s[tid + half];
        __syncthreads();
    }
    if (tid == 0) gw[c * k_size + k] = s[0];
}

// ---- Reductions ------------------------------------------------------------

KERNEL reduce_sum_dim_keepdim_f32(const float *src, float *dst, u32 outer, u32 axis, u32 inner) {
    u32 i = element();
    if (i >= outer * inner) return;
    float acc = 0.0f;
    for (u32 a = 0; a < axis; a++) acc += src[((i / inner) * axis + a) * inner + i % inner];
    dst[i] = acc;
}

KERNEL sum_reduce_partial_f32(const float *src, float *partial, u32 count, u32 chunks) {
    u32 c = element();
    if (c >= chunks) return;
    float acc = 0.0f;
    for (u32 i = c; i < count; i += chunks) acc += src[i];
    partial[c] = acc;
}

// ---- Chunked scan ----------------------------------------------------------

#define N_MAX 128
#define Q_MAX 128

// One thread per batch entry, head and lane.
KERNEL ssd_scan_chunked(const float *x, const float *a, const float *bm, const float *cm, float *y,
                        u32 batch, u32 t_len, u32 heads, u32 p_dim, u32 n_dim, u32 block_len) {
    u32 tid = element();
    u32 p = tid % p_dim, h = (tid / p_dim) % heads, b = tid / (p_dim * heads);
    if (b >= batch) return;
    float state[N_MAX], cum[Q_MAX];
    for (u32 n = 0; n < n_dim; n++) state[n] = 0.0f;
    for (u32 chunk = 0; chunk < t_len / block_len; chunk++) {
        size_t t0 = (size_t)b * t_len + chunk * block_len;
        float acc = 0.0f;
        for (u32 q = 0; q < block_len; q++) {
            acc += a[(t0 + q) * heads + h];
            cum[q] = acc;
        }
        for (u32 q = 0; q < block_len; q++) {
            const float *c = cm + ((t0 + q) * heads + h) * n_dim;
            float out = 0.0f;
            for (u32 u = 0; u <= q; u++) {
                const float *bv = bm + ((t0 + u) * heads + h) * n_dim;
                float bc = 0.0f;
                for (u32 n = 0; n < n_dim; n++) bc += c[n] * bv[n];
                out += expf(cum[q] - cum[u]) * bc * x[((t0 + u) * heads + h) * p_dim + p];
            }
            float from_start = expf(cum[q]);
            for (u32 n = 0; n < n_dim; n++) out += from_start * c[n] * state[n];
            y[((t0 + q) * heads + h) * p_dim + p] = out;
        }
        float full = expf(acc);
        for (u32 n = 0; n < n_dim; n++) {
            float next = state[n] * full;
            for (u32 u = 0; u < block_len; u++)
                next += expf(acc - cum[u]) * bm[((t0 + u) * heads + h) * n_dim + n]
                    * x[((t0 + u) * heads + h) * p_dim + p];
            state[n] = next;
        }
    }
}

#define P1_N 128
#define P1_Q 64
#define P1_P 64
#define P1_PAD (P1_N + 1)

// One block per batch entry and head, one thread per lane.
KERNEL ssd_scan_chunked_p1(const float *x, const float *a, const float *bm, const float *cm,
                           float *y, u32 batch, u32 t_len, u32 heads, u32 p_dim, u32 n_dim,
                           u32 block_len) {
    extern __shared__ float s[];
    float *cum = s, *sb = cum + P1_Q, *sc = sb + P1_Q * P1_N, *states = sc + P1_Q * P1_N;
    float *decay_end = states + P1_P * P1_PAD;
    float *bc_even = decay_end + P1_Q, *bc_odd = bc_even + P1_Q;
    float *decay_even = bc_odd + P1_Q, *decay_odd = decay_even + P1_Q;
    float *decay_start = decay_odd + P1_Q;
    u32 tid = threadIdx.x, h = blockIdx.x % heads, b = blockIdx.x / heads;
    float *state = states + tid * P1_PAD;
    for (u32 n = 0; n < P1_N; n++) state[n] = 0.0f;
    __syncthreads();
    for (u32 chunk = 0; chunk < t_len / P1_Q; chunk++) {
        size_t t0 = (size_t)b * t_len + chunk * P1_Q;
        if (tid == 0) {
            float acc = 0.0f;
            for (u32 q = 0; q < P1_Q; q++) {
                acc += a[(t0 + q) * heads + h];
                cum[q] = acc;
            }
        }
        __syncthreads();
        for (u32 i = tid; i < P1_Q * P1_N; i += P1_P) {
            size_t at = ((t0 + i / P1_N) * heads + h) * P1_N + i % P1_N;
            sb[i] = bm[at];
            sc[i] = cm[at];
        }
        __syncthreads();
        float end = cum[P1_Q - 1], mine = cum[tid];
        decay_end[tid] = expf(end - mine);
        decay_start[tid] = expf(mine);
        float first = 0.0f;
        if (tid == 0)
            for (u32 n = 0; n < P1_N; n++) first += sc[n] * sb[n];
        bc_even[tid] = first;
        decay_even[tid] = expf(cum[0] - mine);
        __syncthreads();
        for (u32 q = 0; q < P1_Q; q++) {
            bool even = q % 2 == 0;
            const float *bc = even ? bc_even : bc_odd, *decay = even ? decay_even : decay_odd;
            float out = 0.0f;
            for (u32 u = 0; u <= q; u++)
                out += decay[u] * bc[u] * x[((t0 + u) * heads + h) * P1_P + tid];
            for (u32 n = 0; n < P1_N; n++) out += decay_start[q] * sc[q * P1_N + n] * state[n];
            y[((t0 + q) * heads + h) * P1_P + tid] = out;
            if (q + 1 < P1_Q) {
                float next = 0.0f;
                if (tid <= q + 1)
                    for (u32 n = 0; n < P1_N; n++)
                        next += sc[(q + 1) * P1_N + n] * sb[tid * P1_N + n];
                (even ? bc_odd : bc_even)[tid] = next;
                (even ? decay_odd : decay_even)[tid] = expf(cum[q + 1] - mine);
            }
            __syncthreads();
        }
        float full = expf(end);
        for (u32 n = 0; n < P1_N; n++) state[n] *= full;
        for (u32 u = 0; u < P1_Q; u++) {
            float scale = decay_end[u] * x[((t0 + u) * heads + h) * P1_P + tid];
            for (u32 n = 0; n < P1_N; n++) state[n] += scale * sb[u * P1_N + n];
        }
        __syncthreads();
    }
}
