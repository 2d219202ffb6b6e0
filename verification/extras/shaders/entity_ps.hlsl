float4 main(float4 pos : SV_POSITION, float2 uv : TEXCOORD0, float sel : TEXCOORD1,
            float2 foot : TEXCOORD2) : SV_TARGET {
    float4 g = groundTex.Sample(samp, foot);
    if (g.r + g.g + g.b < 0.02)
        return float4(0, 0, 0, 0);
    float sharp = max(planeScale * 4.0, 6.0);
    if (sel > -0.5 && hiOn > 0.5) {
        int gi = int(max(hiGrid, 1.0) + 0.5);
        int ti = int(sel + 0.5);
        float4 A = tileAffine[ti];
        float cov = (ti < 4) ? tileCoverA[ti] : tileCoverLive;
        float2 uvt = float2(uv.x * A.x + A.y, uv.y * A.z + A.w);
        float2 tc = float2(ti % gi, ti / gi);
        float2 c = (ti < 4) ? ((tc + 0.5) / float(gi)) : float2(0.5, 0.5);
        float2 d = uvt - c;
        float lim = 0.5 * cov;
        if (cov > 0.01 && abs(d.x) <= lim && abs(d.y) <= lim) {
            float2 huv = clamp(0.5 + d / cov, 0.0005, 0.9995);
            float4 h = sharpTapA(hiTex, huv, float(ti), float2(hiTexW, hiTexH), sharp);
            if (h.a > 0.004)
                return h;
        }
    }
    return sharpTap(sceneTex, uv, float2(texW, texH), sharp);
}
